//! Finding the edges near a stop.

use crate::geometry::{BBox, Point};
use crate::hashed::{ways_get, ways_insert, ways_new, ways_of, WayIndex};
use crate::graph::{EdgePL, Graph, NodePL};
use crate::profiles::{clamp_i32, in_i32};
use rstar::primitives::{GeomWithData, Rectangle};
use rstar::{RTree, AABB};
use vstd::multiset::Multiset;
use vstd::prelude::*;

verus! {

/// Boxes, each with a number, in an R-tree of the `rstar` crate.
#[verifier::external_body]
pub struct BoxTree {
    tree: RTree<GeomWithData<Rectangle<[i128; 2]>, usize>>,
}

/// The boxes of a tree, with their numbers.
pub uninterp spec fn boxes_in(t: BoxTree) -> Multiset<(BBox, usize)>;

/// Whether two boxes have a point in common.
pub open spec fn meets(a: BBox, b: BBox) -> bool {
    a.min_x <= b.max_x && a.max_x >= b.min_x && a.min_y <= b.max_y && a.max_y >= b.min_y
}

/// Whether a box has its corners in order.
pub open spec fn is_box(b: BBox) -> bool {
    b.min_x <= b.max_x && b.min_y <= b.max_y
}

/// `RTree::bulk_load` of the `rstar` crate: the tree holds each of the boxes as often as it was given.
#[verifier::external_body]
fn bulk_load(boxes: Vec<(BBox, usize)>) -> (t: BoxTree)
    requires
        forall|i: int| 0 <= i < boxes@.len() ==> is_box((#[trigger] boxes@[i]).0),
    ensures
        boxes_in(t) == boxes@.to_multiset(),
{
    let mut items = Vec::with_capacity(boxes.len());
    for (b, n) in boxes {
        let low = [b.min_x as i128, b.min_y as i128];
        let high = [b.max_x as i128, b.max_y as i128];
        items.push(GeomWithData::new(Rectangle::from_corners(low, high), n));
    }
    BoxTree { tree: RTree::bulk_load(items) }
}

/// `RTree::locate_in_envelope_intersecting` of the `rstar` crate: the boxes that have a point in common
/// with the given one, borders belonging to a box. Their order is left open.
#[verifier::external_body]
fn locate(t: &BoxTree, b: BBox) -> (r: Vec<(BBox, usize)>)
    requires
        is_box(b),
    ensures
        r@.to_multiset() == boxes_in(*t).filter(|x: (BBox, usize)| meets(x.0, b)),
{
    let low = [b.min_x as i128, b.min_y as i128];
    let high = [b.max_x as i128, b.max_y as i128];
    let mut r = Vec::new();
    for x in t.tree.locate_in_envelope_intersecting(&AABB::from_corners(low, high)) {
        let (low, high) = (x.geom().lower(), x.geom().upper());
        let (min_x, min_y) = (low[0] as i32, low[1] as i32);
        let (max_x, max_y) = (high[0] as i32, high[1] as i32);
        r.push((BBox { min_x, min_y, max_x, max_y }, x.data));
    }
    r
}

/// All modes but that of the roads.
pub const INDEXED_MODES: u8 = 55;

/// The edges of a graph that some of these modes may use, each found by where it is.
pub struct SnapIndex {
    pub tree: BoxTree,
    pub modes: u8,
}

/// The box between the ends of an edge.
pub open spec fn edge_box(g: Graph<NodePL, EdgePL>, e: int) -> BBox {
    let a = g.nodes@[g.edges@[e].from as int].payload.point;
    let b = g.nodes@[g.edges@[e].to as int].payload.point;
    BBox {
        min_x: if a.x < b.x {
            a.x
        } else {
            b.x
        },
        min_y: if a.y < b.y {
            a.y
        } else {
            b.y
        },
        max_x: if a.x > b.x {
            a.x
        } else {
            b.x
        },
        max_y: if a.y > b.y {
            a.y
        } else {
            b.y
        },
    }
}

/// Whether an edge is indexed: it may be used along its geometry, by one of these modes.
pub open spec fn is_indexed(g: Graph<NodePL, EdgePL>, modes: u8, e: int) -> bool {
    &&& g.edges@[e].payload.oneway != 2
    &&& (g.edges@[e].payload.allowed_modes & modes) != 0
}

/// The boxes of the first `n` edges, as far as these are indexed.
pub open spec fn edge_boxes(g: Graph<NodePL, EdgePL>, modes: u8, n: int) -> Seq<(BBox, usize)>
    decreases n,
{
    if n <= 0 {
        Seq::empty()
    } else if is_indexed(g, modes, n - 1) {
        edge_boxes(g, modes, n - 1).push((edge_box(g, n - 1), (n - 1) as usize))
    } else {
        edge_boxes(g, modes, n - 1)
    }
}

/// Whether an index holds the edges of a graph.
pub open spec fn is_index_of(t: SnapIndex, g: Graph<NodePL, EdgePL>) -> bool {
    boxes_in(t.tree) == edge_boxes(g, t.modes, g.edges@.len() as int).to_multiset()
}

/// An index of the edges of a graph that one of these modes may use.
pub fn build_match_edge_index(graph: &Graph<NodePL, EdgePL>, indexed_modes: u8) -> (r: SnapIndex)
    requires
        graph.wf(),
    ensures
        r.modes == indexed_modes,
        is_index_of(r, *graph),
{
    let mut boxes: Vec<(BBox, usize)> = Vec::new();
    let mut e: usize = 0;
    while e < graph.edges.len()
        invariant
            graph.wf(),
            e <= graph.edges@.len(),
            boxes@ == edge_boxes(*graph, indexed_modes, e as int),
            forall|i: int| 0 <= i < boxes@.len() ==> is_box((#[trigger] boxes@[i]).0),
        decreases graph.edges@.len() - e,
    {
        let edge = &graph.edges[e];
        assert(graph.edges@[e as int].from < graph.nodes@.len());
        if !(edge.payload.oneway == 2 || (edge.payload.allowed_modes & indexed_modes) == 0) {
            let a = graph.nodes[edge.from].payload.point;
            let b = graph.nodes[edge.to].payload.point;
            let min_x: i32 = if a.x < b.x {
                a.x
            } else {
                b.x
            };
            let min_y: i32 = if a.y < b.y {
                a.y
            } else {
                b.y
            };
            let max_x: i32 = if a.x > b.x {
                a.x
            } else {
                b.x
            };
            let max_y: i32 = if a.y > b.y {
                a.y
            } else {
                b.y
            };
            boxes.push((BBox { min_x, min_y, max_x, max_y }, e));
        }
        e = e + 1;
    }
    SnapIndex { tree: bulk_load(boxes), modes: indexed_modes }
}

/// How far a distance reaches along a meridian, in units of coordinates.
pub open spec fn lat_pad(distance_mm: int) -> int {
    distance_mm * 1000 / 11132
}

/// How far a distance reaches along a parallel, in units of coordinates, where a degree of longitude is
/// that many ten-thousandths of one of latitude.
pub open spec fn lon_pad(distance_mm: int, scale: int) -> int {
    distance_mm * 10_000_000 / (11132 * scale)
}

/// The box around a point that holds all that is no further away than a distance.
pub open spec fn envelope(p: Point, distance_mm: int, scale: int) -> BBox {
    BBox {
        min_x: in_i32(p.x - lon_pad(distance_mm, scale)) as i32,
        min_y: in_i32(p.y - lat_pad(distance_mm)) as i32,
        max_x: in_i32(p.x + lon_pad(distance_mm, scale)) as i32,
        max_y: in_i32(p.y + lat_pad(distance_mm)) as i32,
    }
}

/// The box around a point that holds all that is no further away than a distance in millimetres.
pub fn snap_envelope(point: Point, max_distance_mm: u32, lon_scale: u32) -> (r: BBox)
    requires
        100 <= lon_scale <= 10_000,
    ensures
        r == envelope(point, max_distance_mm as int, lon_scale as int),
        is_box(r),
{
    let lat: i64 = (max_distance_mm as i64 * 1000) / 11132;
    let d: u64 = 11132 * (lon_scale as u64);
    assert(d == 11132 * lon_scale);
    let lon: u64 = (max_distance_mm as u64 * 10_000_000) / d;
    assert(lon <= 42_949_672_950_000_000) by (nonlinear_arith)
        requires
            lon == (max_distance_mm * 10_000_000) / (d as int),
            d >= 1,
            max_distance_mm <= 0xffff_ffff,
    ;
    assert(lat >= 0 && lon >= 0);
    BBox {
        min_x: clamp_i32(point.x as i64 - lon as i64),
        min_y: clamp_i32(point.y as i64 - lat),
        max_x: clamp_i32(point.x as i64 + lon as i64),
        max_y: clamp_i32(point.y as i64 + lat),
    }
}

/// Whether a stop may be served on an edge.
pub open spec fn is_snappable(
    g: Graph<NodePL, EdgePL>,
    e: int,
    allowed_modes: u8,
    max_level: i32,
) -> bool {
    let p = g.edges@[e].payload;
    &&& (p.allowed_modes & allowed_modes) != 0
    &&& p.oneway != 2
    &&& p.level <= max_level
}

proof fn lemma_edge_boxes(g: Graph<NodePL, EdgePL>, modes: u8, n: int)
    requires
        0 <= n <= g.edges@.len(),
        g.edges@.len() <= usize::MAX,
    ensures
        edge_boxes(g, modes, n).no_duplicates(),
        forall|b: BBox, e: usize| #[trigger]
            edge_boxes(g, modes, n).contains((b, e)) <==> e < n && is_indexed(g, modes, e as int) && b
                == edge_box(g, e as int),
    decreases n,
{
    if n > 0 {
        lemma_edge_boxes(g, modes, n - 1);
        let s = edge_boxes(g, modes, n - 1);
        let t = edge_boxes(g, modes, n);
        let last = (edge_box(g, n - 1), (n - 1) as usize);
        if is_indexed(g, modes, n - 1) {
            assert(!s.contains(last));
            assert(t == s.push(last));
            assert forall|b: BBox, e: usize| #[trigger] t.contains((b, e)) <==> e < n && is_indexed(
                g,
                modes,
                e as int,
            ) && b == edge_box(g, e as int) by {
                if t.contains((b, e)) {
                    let i = choose|i: int| 0 <= i < t.len() && t[i] == (b, e);
                    if i < s.len() {
                        assert(s[i] == (b, e));
                        assert(s.contains((b, e)));
                    }
                }
                if e < n && is_indexed(g, modes, e as int) && b == edge_box(g, e as int) {
                    if e < n - 1 {
                        assert(s.contains((b, e)));
                        let i = choose|i: int| 0 <= i < s.len() && s[i] == (b, e);
                        assert(t[i] == (b, e));
                    } else {
                        assert(t[s.len() as int] == (b, e));
                    }
                }
            }
        }
    }
}

/// What a query of an index finds: each indexed edge whose box meets the given one, once.
proof fn lemma_found(
    t: SnapIndex,
    g: Graph<NodePL, EdgePL>,
    b: BBox,
    found: Seq<(BBox, usize)>,
)
    requires
        is_index_of(t, g),
        g.edges@.len() <= usize::MAX,
        found.to_multiset() == boxes_in(t.tree).filter(|x: (BBox, usize)| meets(x.0, b)),
    ensures
        found.no_duplicates(),
        forall|c: BBox, e: usize| #[trigger]
            found.contains((c, e)) <==> e < g.edges@.len() && is_indexed(g, t.modes, e as int) && c
                == edge_box(g, e as int) && meets(c, b),
{
    broadcast use vstd::seq_lib::group_to_multiset_ensures;
    broadcast use vstd::multiset::group_multiset_axioms;

    let n = g.edges@.len() as int;
    let modes = t.modes;
    let all = edge_boxes(g, modes, n);
    lemma_edge_boxes(g, modes, n);
    all.lemma_multiset_has_no_duplicates();
    assert forall|x: (BBox, usize)| found.to_multiset().contains(x) implies found.to_multiset().count(
        x,
    ) == 1 by {
        assert(all.to_multiset().contains(x));
    }
    found.lemma_multiset_has_no_duplicates_conv();
    assert forall|c: BBox, e: usize| #[trigger] found.contains((c, e)) <==> e < g.edges@.len()
        && is_indexed(g, modes, e as int) && c == edge_box(g, e as int) && meets(c, b) by {
        let x = (c, e);
        assert(found.contains(x) <==> found.to_multiset().count(x) > 0);
        assert(all.contains(x) <==> all.to_multiset().count(x) > 0);
    }
}

/// The edges near a stop on which it may be served, in no particular order.
pub fn edges_near_stop(
    edge_index: &SnapIndex,
    graph: &Graph<NodePL, EdgePL>,
    point: Point,
    allowed_modes: u8,
    max_distance_mm: u32,
    max_snap_level: i32,
    lon_scale: u32,
) -> (r: Vec<usize>)
    requires
        graph.wf(),
        is_index_of(*edge_index, *graph),
        100 <= lon_scale <= 10_000,
    ensures
        r@.no_duplicates(),
        forall|e: usize| #[trigger]
            r@.contains(e) <==> {
                &&& e < graph.edges@.len()
                &&& is_indexed(*graph, edge_index.modes, e as int)
                &&& is_snappable(*graph, e as int, allowed_modes, max_snap_level)
                &&& meets(
                    edge_box(*graph, e as int),
                    envelope(point, max_distance_mm as int, lon_scale as int),
                )
            },
{
    let area = snap_envelope(point, max_distance_mm, lon_scale);
    let found = locate(&edge_index.tree, area);
    assert(graph.edges.len() == graph.edges@.len());
    proof {
        lemma_found(*edge_index, *graph, area, found@);
    }
    let mut r: Vec<usize> = Vec::new();
    let mut i: usize = 0;
    while i < found.len()
        invariant
            i <= found@.len(),
            found@.no_duplicates(),
            forall|c: BBox, e: usize| #[trigger]
                found@.contains((c, e)) <==> e < graph.edges@.len() && is_indexed(*graph, edge_index.modes, e as int)
                    && c == edge_box(*graph, e as int) && meets(c, area),
            r@.no_duplicates(),
            forall|e: usize| #[trigger]
                r@.contains(e) ==> exists|j: int|
                    #![trigger found@[j]]
                    0 <= j < i && found@[j].1 == e && is_snappable(
                        *graph,
                        e as int,
                        allowed_modes,
                        max_snap_level,
                    ),
            forall|j: int|
                #![trigger found@[j]]
                0 <= j < i && is_snappable(
                    *graph,
                    found@[j].1 as int,
                    allowed_modes,
                    max_snap_level,
                ) ==> r@.contains(found@[j].1),
        decreases found@.len() - i,
    {
        let ghost (c, e) = found@[i as int];
        assert(found@.contains((c, e)));
        let n: usize = found[i].1;
        let p = &graph.edges[n].payload;
        if !((p.allowed_modes & allowed_modes) == 0 || p.oneway == 2 || p.level > max_snap_level) {
            let ghost r0 = r@;
            proof {
                if r0.contains(n) {
                    let j = choose|j: int|
                        #![trigger found@[j]]
                        0 <= j < i && found@[j].1 == n && is_snappable(
                            *graph,
                            n as int,
                            allowed_modes,
                            max_snap_level,
                        );
                    assert(found@.contains((found@[j].0, found@[j].1)));
                    assert(found@[j] == found@[i as int]);
                }
            }
            r.push(n);
            proof {
                assert(r@[r0.len() as int] == n);
                assert forall|v: usize| #[trigger] r@.contains(v) implies exists|j: int|
                    #![trigger found@[j]]
                    0 <= j < i + 1 && found@[j].1 == v && is_snappable(
                        *graph,
                        v as int,
                        allowed_modes,
                        max_snap_level,
                    ) by {
                    let k = choose|k: int| 0 <= k < r@.len() && r@[k] == v;
                    if k < r0.len() {
                        assert(r0[k] == v);
                        assert(r0.contains(v));
                    } else {
                        assert(found@[i as int].1 == v);
                    }
                }
                assert forall|j: int|
                    #![trigger found@[j]]
                    0 <= j < i + 1 && is_snappable(
                        *graph,
                        found@[j].1 as int,
                        allowed_modes,
                        max_snap_level,
                    ) implies r@.contains(found@[j].1) by {
                    if j < i {
                        let k = choose|k: int| 0 <= k < r0.len() && r0[k] == found@[j].1;
                        assert(r@[k] == found@[j].1);
                    }
                }
            }
        }
        i = i + 1;
    }
    proof {
        assert forall|e: usize| #[trigger] r@.contains(e) <==> {
            &&& e < graph.edges@.len()
            &&& is_indexed(*graph, edge_index.modes, e as int)
            &&& is_snappable(*graph, e as int, allowed_modes, max_snap_level)
            &&& meets(edge_box(*graph, e as int), area)
        } by {
            if r@.contains(e) {
                let j = choose|j: int|
                    #![trigger found@[j]]
                    0 <= j < found@.len() && found@[j].1 == e && is_snappable(
                        *graph,
                        e as int,
                        allowed_modes,
                        max_snap_level,
                    );
                assert(found@.contains((found@[j].0, found@[j].1)));
            }
            if e < graph.edges@.len() && is_indexed(*graph, edge_index.modes, e as int) && is_snappable(
                *graph,
                e as int,
                allowed_modes,
                max_snap_level,
            ) && meets(edge_box(*graph, e as int), area) {
                assert(found@.contains((edge_box(*graph, e as int), e)));
                let j = choose|j: int|
                    0 <= j < found@.len() && found@[j] == (edge_box(*graph, e as int), e);
                assert(found@[j].1 == e);
            }
        }
    }
    r
}

/// A place on an edge where a stop may be served.
#[derive(Debug, Clone, Copy, PartialEq, Eq, Structural)]
pub struct ProjectedEdgeCandidate {
    pub edge_idx: usize,
    pub distance_mm: u64,
    pub progress: u32,
}

/// An edge with the place on it that is nearest to a stop, how far that is, and how far along the edge.
pub type Hit = (usize, Option<(Point, u64, u32)>);

/// How far away a hit is.
pub open spec fn hit_distance(h: Hit) -> u64 {
    match h.1 {
        Some(p) => p.1,
        None => 0,
    }
}

/// Whether a hit is near enough.
pub open spec fn is_near(h: Hit, max_distance_mm: u64) -> bool {
    h.1 is Some && hit_distance(h) <= max_distance_mm
}

/// The way and the direction of an edge.
pub open spec fn way_of(g: Graph<NodePL, EdgePL>, e: int) -> (i64, bool) {
    (g.edges@[e].payload.osmid, g.edges@[e].payload.is_reverse)
}

/// Whether a hit is the first of the nearest ones, among the first `n`, on its way in its direction.
pub open spec fn is_first_nearest(
    g: Graph<NodePL, EdgePL>,
    hits: Seq<Hit>,
    max_distance_mm: u64,
    n: int,
    j: int,
) -> bool {
    &&& 0 <= j < n
    &&& is_near(hits[j], max_distance_mm)
    &&& forall|i: int|
        #![trigger hits[i]]
        0 <= i < n && is_near(hits[i], max_distance_mm) && way_of(g, hits[i].0 as int) == way_of(
            g,
            hits[j].0 as int,
        ) ==> (if i < j {
            hit_distance(hits[i]) > hit_distance(hits[j])
        } else {
            hit_distance(hits[i]) >= hit_distance(hits[j])
        })
}

/// Whether a hit becomes a candidate: of the edges of a way, only the nearest does in each direction.
/// Edges that belong to no way stand for themselves.
pub open spec fn is_kept(
    g: Graph<NodePL, EdgePL>,
    hits: Seq<Hit>,
    max_distance_mm: u64,
    j: int,
) -> bool {
    &&& is_near(hits[j], max_distance_mm)
    &&& g.edges@[hits[j].0 as int].payload.osmid == 0 || is_first_nearest(
        g,
        hits,
        max_distance_mm,
        hits.len() as int,
        j,
    )
}

/// The candidate that a hit becomes.
pub open spec fn candidate(h: Hit) -> ProjectedEdgeCandidate {
    ProjectedEdgeCandidate {
        edge_idx: h.0,
        distance_mm: hit_distance(h),
        progress: match h.1 {
            Some(p) => p.2,
            None => 0,
        },
    }
}

/// The candidates that the first `n` hits become.
pub open spec fn kept(
    g: Graph<NodePL, EdgePL>,
    hits: Seq<Hit>,
    max_distance_mm: u64,
    n: int,
) -> Seq<ProjectedEdgeCandidate>
    decreases n,
{
    if n <= 0 {
        Seq::empty()
    } else if is_kept(g, hits, max_distance_mm, n - 1) {
        kept(g, hits, max_distance_mm, n - 1).push(candidate(hits[n - 1]))
    } else {
        kept(g, hits, max_distance_mm, n - 1)
    }
}

/// Whether a candidate may stand before another: it is nearer, or as near with no greater number.
pub open spec fn may_precede(a: ProjectedEdgeCandidate, b: ProjectedEdgeCandidate) -> bool {
    a.distance_mm < b.distance_mm || (a.distance_mm == b.distance_mm && a.edge_idx <= b.edge_idx)
}

/// Whether candidates stand in order.
pub open spec fn is_ranked(s: Seq<ProjectedEdgeCandidate>) -> bool {
    forall|i: int, j: int|
        #![trigger s[i], s[j]]
        0 <= i < j < s.len() ==> may_precede(s[i], s[j])
}

fn insert_ranked(v: &mut Vec<ProjectedEdgeCandidate>, x: ProjectedEdgeCandidate)
    requires
        is_ranked(old(v)@),
    ensures
        is_ranked(final(v)@),
        final(v)@.to_multiset() == old(v)@.to_multiset().insert(x),
{
    let ghost s = v@;
    let mut i: usize = v.len();
    while i > 0 && (v[i - 1].distance_mm > x.distance_mm || (v[i - 1].distance_mm == x.distance_mm
        && v[i - 1].edge_idx > x.edge_idx))
        invariant
            v@ == s,
            is_ranked(s),
            i <= s.len(),
            forall|j: int| i <= j < s.len() ==> may_precede(x, #[trigger] s[j]),
        decreases i,
    {
        i = i - 1;
    }
    v.insert(i, x);
    proof {
        vstd::seq_lib::to_multiset_insert(s, i as int, x);
        let t = v@;
        assert forall|a: int, b: int|
            #![trigger t[a], t[b]]
            0 <= a < b < t.len() implies may_precede(t[a], t[b]) by {
            if a < i && b == i {
                assert(may_precede(s[a], s[i - 1]) || a == i - 1);
            } else if a == i {
                assert(t[b] == s[b - 1]);
            } else if a < i {
                assert(t[a] == s[a]);
            }
        }
    }
}

/// The candidates among hits near a stop, nearest first.
pub fn edge_candidates_for_stop(
    graph: &Graph<NodePL, EdgePL>,
    hits: &Vec<Hit>,
    max_distance_mm: u64,
) -> (r: Vec<ProjectedEdgeCandidate>)
    requires
        forall|i: int| 0 <= i < hits@.len() ==> (#[trigger] hits@[i]).0 < graph.edges@.len(),
    ensures
        is_ranked(r@),
        r@.to_multiset() == kept(
            *graph,
            hits@,
            max_distance_mm,
            hits@.len() as int,
        ).to_multiset(),
{
    let ghost g = *graph;
    let ghost h = hits@;
    let n: usize = hits.len();
    let mut best: WayIndex = ways_new();
    let mut j: usize = 0;
    while j < n
        invariant
            n == h.len(),
            h == hits@,
            g == *graph,
            j <= n,
            forall|i: int| 0 <= i < hits@.len() ==> (#[trigger] hits@[i]).0 < graph.edges@.len(),
            forall|i: int|
                #![trigger h[i]]
                0 <= i < j && is_near(h[i], max_distance_mm) ==> ways_of(best).contains_key(
                    way_of(g, h[i].0 as int),
                ),
            forall|w: (i64, bool)| #[trigger]
                ways_of(best).contains_key(w) ==> is_first_nearest(
                    g,
                    h,
                    max_distance_mm,
                    j as int,
                    ways_of(best)[w] as int,
                ) && way_of(g, h[ways_of(best)[w] as int].0 as int) == w,
        decreases n - j,
    {
        let ghost b0 = ways_of(best);
        let e: usize = hits[j].0;
        assert(hits@[j as int].0 < graph.edges@.len());
        let key: (i64, bool) = (graph.edges[e].payload.osmid, graph.edges[e].payload.is_reverse);
        if let Some((_, d, _)) = hits[j].1 {
            if d <= max_distance_mm {
                let better = match ways_get(&best, key) {
                    Some(b) => match hits[b].1 {
                        Some((_, c, _)) => d < c,
                        None => true,
                    },
                    None => true,
                };
                if better {
                    ways_insert(&mut best, key, j);
                }
            }
        }
        proof {
            let b1 = ways_of(best);
            assert forall|w: (i64, bool)| #[trigger] b1.contains_key(w) implies is_first_nearest(
                g,
                h,
                max_distance_mm,
                j + 1,
                b1[w] as int,
            ) && way_of(g, h[b1[w] as int].0 as int) == w by {
                if b0.contains_key(w) {
                    assert(is_first_nearest(g, h, max_distance_mm, j as int, b0[w] as int));
                }
            }
        }
        j = j + 1;
    }
    let mut r: Vec<ProjectedEdgeCandidate> = Vec::new();
    j = 0;
    assert(r@ =~= kept(g, h, max_distance_mm, 0));
    while j < n
        invariant
            n == h.len(),
            h == hits@,
            g == *graph,
            j <= n,
            forall|i: int| 0 <= i < hits@.len() ==> (#[trigger] hits@[i]).0 < graph.edges@.len(),
            forall|i: int|
                #![trigger h[i]]
                0 <= i < n && is_near(h[i], max_distance_mm) ==> ways_of(best).contains_key(
                    way_of(g, h[i].0 as int),
                ),
            forall|w: (i64, bool)| #[trigger]
                ways_of(best).contains_key(w) ==> is_first_nearest(
                    g,
                    h,
                    max_distance_mm,
                    n as int,
                    ways_of(best)[w] as int,
                ) && way_of(g, h[ways_of(best)[w] as int].0 as int) == w,
            is_ranked(r@),
            r@.to_multiset() == kept(g, h, max_distance_mm, j as int).to_multiset(),
        decreases n - j,
    {
        let e: usize = hits[j].0;
        assert(hits@[j as int].0 < graph.edges@.len());
        let key: (i64, bool) = (graph.edges[e].payload.osmid, graph.edges[e].payload.is_reverse);
        if let Some((_, d, progress)) = hits[j].1 {
            if d <= max_distance_mm {
                let first = match ways_get(&best, key) {
                    Some(b) => b == j,
                    None => false,
                };
                proof {
                    assert(is_near(h[j as int], max_distance_mm));
                    let b = ways_of(best)[key] as int;
                    assert(is_first_nearest(g, h, max_distance_mm, n as int, b));
                    assert(h[b] == hits@[b]);
                    assert(first == is_first_nearest(g, h, max_distance_mm, n as int, j as int));
                    broadcast use vstd::seq_lib::group_to_multiset_ensures;

                }
                if key.0 == 0 || first {
                    insert_ranked(
                        &mut r,
                        ProjectedEdgeCandidate { edge_idx: e, distance_mm: d, progress },
                    );
                }
            }
        }
        j = j + 1;
    }
    r
}

// What snapping is for.

/// The box around a point holds exactly the points that are no further away, along a meridian and along a
/// parallel, than the distance: a thousandth of a degree of latitude is a hundred and eleven metres and thirty-two
/// centimetres, and one of longitude is shorter by the scale. Beyond the range of coordinates there is nothing.
pub proof fn lemma_envelope(p: Point, distance_mm: int, scale: int, q: Point)
    requires
        distance_mm >= 0,
        scale > 0,
    ensures
        envelope(p, distance_mm, scale).holds(q) <==> {
            &&& (q.y - p.y) * 11132 <= distance_mm * 1000
            &&& (p.y - q.y) * 11132 <= distance_mm * 1000
            &&& (q.x - p.x) * (11132 * scale) <= distance_mm * 10_000_000
            &&& (p.x - q.x) * (11132 * scale) <= distance_mm * 10_000_000
        },
{
    let k = 11132 * scale;
    lemma_at_most(q.y - p.y, distance_mm * 1000, 11132);
    lemma_at_most(p.y - q.y, distance_mm * 1000, 11132);
    assert(k > 0);
    lemma_at_most(q.x - p.x, distance_mm * 10_000_000, k);
    lemma_at_most(p.x - q.x, distance_mm * 10_000_000, k);
}

proof fn lemma_at_most(a: int, n: int, d: int)
    requires
        d > 0,
    ensures
        a <= n / d <==> a * d <= n,
{
    let f = n / d;
    assert(f * d <= n < (f + 1) * d) by (nonlinear_arith)
        requires
            f == n / d,
            d > 0,
    ;
    if a <= f {
        assert(a * d <= f * d) by (nonlinear_arith)
            requires
                a <= f,
                d > 0,
        ;
    } else {
        assert(a * d >= (f + 1) * d) by (nonlinear_arith)
            requires
                a >= f + 1,
                d > 0,
        ;
    }
}

/// The box of an edge is the smallest that holds both its ends.
pub proof fn lemma_edge_box(g: Graph<NodePL, EdgePL>, e: int, b: BBox)
    ensures
        edge_box(g, e).holds(g.nodes@[g.edges@[e].from as int].payload.point),
        edge_box(g, e).holds(g.nodes@[g.edges@[e].to as int].payload.point),
        b.holds(g.nodes@[g.edges@[e].from as int].payload.point) && b.holds(
            g.nodes@[g.edges@[e].to as int].payload.point,
        ) ==> b.min_x <= edge_box(g, e).min_x && b.min_y <= edge_box(g, e).min_y && edge_box(
            g,
            e,
        ).max_x <= b.max_x && edge_box(g, e).max_y <= b.max_y,
{
}

proof fn lemma_nearest_on_way(
    g: Graph<NodePL, EdgePL>,
    hits: Seq<Hit>,
    max_distance_mm: u64,
    n: int,
    i: int,
) -> (j: int)
    requires
        0 <= i < n <= hits.len(),
        is_near(hits[i], max_distance_mm),
    ensures
        is_first_nearest(g, hits, max_distance_mm, n, j),
        way_of(g, hits[j].0 as int) == way_of(g, hits[i].0 as int),
        hit_distance(hits[j]) <= hit_distance(hits[i]),
    decreases n,
{
    if exists|k: int|
        0 <= k < n - 1 && is_near(#[trigger] hits[k], max_distance_mm) && way_of(g, hits[k].0 as int)
            == way_of(g, hits[i].0 as int) {
        let k = choose|k: int|
            0 <= k < n - 1 && is_near(#[trigger] hits[k], max_distance_mm) && way_of(
                g,
                hits[k].0 as int,
            ) == way_of(g, hits[i].0 as int);
        let j = lemma_nearest_on_way(
            g,
            hits,
            max_distance_mm,
            n - 1,
            if i < n - 1 {
                i
            } else {
                k
            },
        );
        if is_near(hits[n - 1], max_distance_mm) && way_of(g, hits[n - 1].0 as int) == way_of(
            g,
            hits[i].0 as int,
        ) && hit_distance(hits[n - 1]) < hit_distance(hits[j]) {
            n - 1
        } else {
            j
        }
    } else {
        assert(hits[i] == hits[i]);
        i
    }
}

proof fn lemma_kept(
    g: Graph<NodePL, EdgePL>,
    hits: Seq<Hit>,
    max_distance_mm: u64,
    n: int,
    c: ProjectedEdgeCandidate,
)
    requires
        0 <= n <= hits.len(),
    ensures
        kept(g, hits, max_distance_mm, n).contains(c) <==> exists|j: int|
            0 <= j < n && #[trigger] is_kept(g, hits, max_distance_mm, j) && c == candidate(hits[j]),
    decreases n,
{
    let all = kept(g, hits, max_distance_mm, n);
    if n > 0 {
        lemma_kept(g, hits, max_distance_mm, n - 1, c);
        let rest = kept(g, hits, max_distance_mm, n - 1);
        if all.contains(c) {
            let k = choose|k: int| 0 <= k < all.len() && all[k] == c;
            if k < rest.len() {
                assert(rest[k] == c);
            } else {
                assert(is_kept(g, hits, max_distance_mm, n - 1));
            }
        }
        if rest.contains(c) {
            let k = choose|k: int| 0 <= k < rest.len() && rest[k] == c;
            assert(all[k] == c);
        }
        if is_kept(g, hits, max_distance_mm, n - 1) && c == candidate(hits[n - 1]) {
            assert(all[rest.len() as int] == c);
        }
    }
}

/// Every place near enough has its candidate: if its edge belongs to a way, then one on that way, in the same
/// direction, that is no further away, else itself.
pub proof fn lemma_near_places_have_candidates(
    g: Graph<NodePL, EdgePL>,
    hits: Seq<Hit>,
    max_distance_mm: u64,
    i: int,
) -> (c: ProjectedEdgeCandidate)
    requires
        0 <= i < hits.len(),
        hits[i].1 is Some,
        (hits[i].1->0).1 <= max_distance_mm,
    ensures
        kept(g, hits, max_distance_mm, hits.len() as int).contains(c),
        c.distance_mm <= (hits[i].1->0).1,
        g.edges@[c.edge_idx as int].payload.osmid == g.edges@[hits[i].0 as int].payload.osmid,
        g.edges@[c.edge_idx as int].payload.is_reverse == g.edges@[hits[i].0 as int].payload.is_reverse,
        g.edges@[hits[i].0 as int].payload.osmid == 0 ==> c.edge_idx == hits[i].0 && c.distance_mm == (
        hits[i].1->0).1 && c.progress == (hits[i].1->0).2,
{
    let n = hits.len() as int;
    let j = if g.edges@[hits[i].0 as int].payload.osmid == 0 {
        i
    } else {
        lemma_nearest_on_way(g, hits, max_distance_mm, n, i)
    };
    assert(is_kept(g, hits, max_distance_mm, j));
    lemma_kept(g, hits, max_distance_mm, n, candidate(hits[j]));
    candidate(hits[j])
}

/// Every candidate is one of the places, near enough, and of the places on its way in its direction none is
/// nearer. Two places on one way in one direction never both become candidates.
pub proof fn lemma_candidates_are_nearest(
    g: Graph<NodePL, EdgePL>,
    hits: Seq<Hit>,
    max_distance_mm: u64,
    c: ProjectedEdgeCandidate,
) -> (j: int)
    requires
        kept(g, hits, max_distance_mm, hits.len() as int).contains(c),
    ensures
        0 <= j < hits.len(),
        hits[j].0 == c.edge_idx,
        hits[j].1 is Some,
        (hits[j].1->0).1 == c.distance_mm,
        (hits[j].1->0).2 == c.progress,
        c.distance_mm <= max_distance_mm,
        g.edges@[c.edge_idx as int].payload.osmid != 0 ==> forall|i: int|
            #![trigger hits[i]]
            0 <= i < hits.len() && hits[i].1 is Some && (hits[i].1->0).1 <= max_distance_mm
                && g.edges@[hits[i].0 as int].payload.osmid
                == g.edges@[c.edge_idx as int].payload.osmid
                && g.edges@[hits[i].0 as int].payload.is_reverse
                == g.edges@[c.edge_idx as int].payload.is_reverse ==> c.distance_mm <= (
            hits[i].1->0).1 && (i != j ==> !is_kept(g, hits, max_distance_mm, i)),
{
    let n = hits.len() as int;
    lemma_kept(g, hits, max_distance_mm, n, c);
    let j = choose|j: int|
        0 <= j < n && #[trigger] is_kept(g, hits, max_distance_mm, j) && c == candidate(hits[j]);
    assert(hits[j] == hits[j]);
    j
}

} // verus!
