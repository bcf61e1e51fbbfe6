//! Matching a route hop by hop, each on the tiles that it needs.

use crate::edge_shape::{point_between, point_on_segment};
use crate::geometry::Point;
use crate::graph::{EdgePL, Graph, NodePL, MODE_BUS};
use crate::pathfinding::{found, near_best, pathfind_with_context, query, PathfinderContext};
use crate::search::{Query, TransitMatch};
use crate::sequence::{append_path, courses, lemma_path_is_strung, lemma_walk_usable, path_points, runs_its_way, strung};
use crate::tile::TileCoord;
use rstar::primitives::GeomWithData;
use rstar::RTree;
use vstd::multiset::Multiset;
use vstd::prelude::*;
use vstd::slice::slice_subrange;
use vstd::slice::slice_to_vec;

verus! {

/// If a corridor has more tiles than this, it is walked window by window.
pub const STREAM_THRESHOLD: usize = 8;

/// How many tiles a window has.
pub const WINDOW_SIZE: usize = 3;

/// How many nodes near a point are tried.
pub const TRIED_NODES: usize = 5;

/// The way between two points.
#[derive(Debug)]
pub struct SegmentResult {
    pub geometry: Vec<Point>,
    /// The cost in fifths of a cost unit.
    pub cost: u128,
}

/// Points, each with a number, in an R-tree of the `rstar` crate.
#[verifier::external_body]
pub struct NodeTree {
    tree: RTree<GeomWithData<[i128; 2], usize>>,
}

/// The points of a tree, with their numbers.
pub uninterp spec fn nodes_in(t: NodeTree) -> Multiset<(Point, usize)>;

/// The square of the distance of two points on the plane of their coordinates.
pub open spec fn square_distance(a: Point, b: Point) -> int {
    (a.x - b.x) * (a.x - b.x) + (a.y - b.y) * (a.y - b.y)
}

/// `RTree::bulk_load` of the `rstar` crate: the tree holds each of the points as often as it was given.
#[verifier::external_body]
pub(crate) fn load_nodes(points: Vec<(Point, usize)>) -> (t: NodeTree)
    ensures
        nodes_in(t) == points@.to_multiset(),
{
    let mut items = Vec::with_capacity(points.len());
    for (p, n) in points {
        items.push(GeomWithData::new([p.x as i128, p.y as i128], n));
    }
    NodeTree { tree: RTree::bulk_load(items) }
}

/// `RTree::nearest_neighbor_iter` of the `rstar` crate, up to a number of points: they come in the order of
/// their distances from the given point, and none that is left out is nearer than one that comes. Which
/// of several at the same distance come first is left open.
#[verifier::external_body]
fn nearest_nodes(t: &NodeTree, p: Point, n: usize) -> (r: Vec<(Point, usize)>)
    ensures
        r@.len() <= n,
        r@.len() < n ==> r@.to_multiset() == nodes_in(*t),
        r@.to_multiset().subset_of(nodes_in(*t)),
        forall|i: int, j: int|
            #![trigger r@[i], r@[j]]
            0 <= i < j < r@.len() ==> square_distance(r@[i].0, p) <= square_distance(r@[j].0, p),
        forall|x: (Point, usize), i: int|
            #![trigger nodes_in(*t).count(x), r@[i]]
            0 <= i < r@.len() && nodes_in(*t).count(x) > r@.to_multiset().count(x)
                ==> square_distance(r@[i].0, p) <= square_distance(x.0, p),
{
    let mut r = Vec::new();
    for x in t.tree.nearest_neighbor_iter(&[p.x as i128, p.y as i128]).take(n) {
        let [a, b] = *x.geom();
        r.push((Point { x: a as i32, y: b as i32 }, x.data));
    }
    r
}

/// The nodes of a graph with their places.
pub open spec fn places_of(g: Graph<NodePL, EdgePL>) -> Seq<(Point, usize)> {
    Seq::new(g.nodes@.len(), |i: int| (g.nodes@[i].payload.point, i as usize))
}

/// Whether a tree holds the nodes of a graph.
pub open spec fn is_tree_of(t: NodeTree, g: Graph<NodePL, EdgePL>) -> bool {
    nodes_in(t) == places_of(g).to_multiset()
}

/// A tree of the nodes of a graph.
pub fn rebuild_spatial_tree(graph: &Graph<NodePL, EdgePL>) -> (r: NodeTree)
    ensures
        is_tree_of(r, *graph),
{
    let mut points: Vec<(Point, usize)> = Vec::new();
    let mut i: usize = 0;
    while i < graph.nodes.len()
        invariant
            i <= graph.nodes@.len(),
            points@.len() == i,
            forall|k: int|
                #![trigger points@[k]]
                0 <= k < i ==> points@[k] == places_of(*graph)[k],
        decreases graph.nodes@.len() - i,
    {
        points.push((graph.nodes[i].payload.point, i));
        i = i + 1;
    }
    assert(points@ =~= places_of(*graph));
    load_nodes(points)
}

/// Whether nodes are among the nearest ones of a graph to a point, in the order of their distances, and as
/// many as there may be.
pub open spec fn are_nearest(
    g: Graph<NodePL, EdgePL>,
    p: Point,
    n: int,
    r: Seq<usize>,
) -> bool {
    &&& r.len() == (if g.nodes@.len() < n {
        g.nodes@.len() as int
    } else {
        n
    })
    &&& r.no_duplicates()
    &&& forall|i: int| 0 <= i < r.len() ==> (#[trigger] r[i]) < g.nodes@.len()
    &&& forall|i: int, j: int|
        #![trigger r[i], r[j]]
        0 <= i < j < r.len() ==> square_distance(g.nodes@[r[i] as int].payload.point, p)
            <= square_distance(g.nodes@[r[j] as int].payload.point, p)
    &&& forall|i: int, v: int|
        #![trigger r[i], g.nodes@[v]]
        0 <= i < r.len() && 0 <= v < g.nodes@.len() && !r.contains(v as usize) ==> square_distance(
            g.nodes@[r[i] as int].payload.point,
            p,
        ) <= square_distance(g.nodes@[v].payload.point, p)
}

proof fn lemma_places_distinct(g: Graph<NodePL, EdgePL>)
    requires
        g.nodes@.len() <= usize::MAX,
    ensures
        places_of(g).no_duplicates(),
        forall|x: (Point, usize)| #[trigger]
            places_of(g).contains(x) <==> x.1 < g.nodes@.len() && x.0
                == g.nodes@[x.1 as int].payload.point,
{
    let s = places_of(g);
    assert forall|x: (Point, usize)| #[trigger] s.contains(x) <==> x.1 < g.nodes@.len() && x.0
        == g.nodes@[x.1 as int].payload.point by {
        if s.contains(x) {
            let i = choose|i: int| 0 <= i < s.len() && s[i] == x;
            assert(s[i].1 == i as usize);
        }
        if x.1 < g.nodes@.len() && x.0 == g.nodes@[x.1 as int].payload.point {
            assert(s[x.1 as int] == x);
        }
    }
}

/// Whether places are among the nearest ones to a point, in the order of their distances, and as many as
/// there may be.
pub open spec fn are_nearest_places(
    all: Seq<(Point, usize)>,
    p: Point,
    n: int,
    r: Seq<(Point, usize)>,
) -> bool {
    &&& r.len() == (if all.len() < n {
        all.len() as int
    } else {
        n
    })
    &&& r.no_duplicates()
    &&& forall|x: (Point, usize)| #[trigger] r.contains(x) ==> all.contains(x)
    &&& forall|i: int, j: int|
        #![trigger r[i], r[j]]
        0 <= i < j < r.len() ==> square_distance(r[i].0, p) <= square_distance(r[j].0, p)
    &&& forall|i: int, x: (Point, usize)|
        #![trigger r[i], all.contains(x)]
        0 <= i < r.len() && all.contains(x) && !r.contains(x) ==> square_distance(r[i].0, p)
            <= square_distance(x.0, p)
}

/// The places in a tree that are nearest to a point.
pub(crate) fn nearest_places(
    tree: &NodeTree,
    p: Point,
    n: usize,
    Ghost(all): Ghost<Seq<(Point, usize)>>,
) -> (r: Vec<(Point, usize)>)
    requires
        nodes_in(*tree) == all.to_multiset(),
        all.no_duplicates(),
    ensures
        are_nearest_places(all, p, n as int, r@),
{
    let found = nearest_nodes(tree, p, n);
    let ghost f = found@;
    proof {
        broadcast use vstd::seq_lib::group_to_multiset_ensures;
        broadcast use vstd::multiset::group_multiset_axioms;

        all.lemma_multiset_has_no_duplicates();
        assert forall|x: (Point, usize)| f.to_multiset().contains(x) implies f.to_multiset().count(x)
            == 1 by {
            assert(all.to_multiset().contains(x));
        }
        f.lemma_multiset_has_no_duplicates_conv();
        assert forall|x: (Point, usize)| #[trigger] f.contains(x) implies all.contains(x) by {
            assert(f.to_multiset().count(x) > 0);
            assert(all.to_multiset().count(x) > 0);
        }
        assert(f.len() == f.to_multiset().len());
        assert(all.len() == all.to_multiset().len());
        f.unique_seq_to_set();
        all.unique_seq_to_set();
        vstd::seq_lib::seq_to_set_is_finite(all);
        assert(f.to_set().subset_of(all.to_set()));
        vstd::set_lib::lemma_len_subset(f.to_set(), all.to_set());
        assert forall|i: int, x: (Point, usize)|
            #![trigger f[i], all.contains(x)]
            0 <= i < f.len() && all.contains(x) && !f.contains(x) implies square_distance(f[i].0, p)
            <= square_distance(x.0, p) by {
            assert(all.to_multiset().count(x) > 0);
            assert(f.to_multiset().count(x) == 0);
            assert(nodes_in(*tree).count(x) > f.to_multiset().count(x));
        }
    }
    found
}

/// The nodes of a graph that are nearest to a point.
fn nearest_in(tree: &NodeTree, graph: &Graph<NodePL, EdgePL>, p: Point, n: usize) -> (r: Vec<usize>)
    requires
        is_tree_of(*tree, *graph),
    ensures
        are_nearest(*graph, p, n as int, r@),
{
    let ghost g = *graph;
    let ghost all = places_of(g);
    assert(graph.nodes.len() == graph.nodes@.len());
    proof {
        lemma_places_distinct(g);
    }
    let found = nearest_places(tree, p, n, Ghost(all));
    let ghost f = found@;
    let mut r: Vec<usize> = Vec::new();
    let mut i: usize = 0;
    while i < found.len()
        invariant
            f == found@,
            i <= f.len(),
            r@.len() == i,
            forall|k: int| #![trigger r@[k]] 0 <= k < i ==> r@[k] == f[k].1,
        decreases f.len() - i,
    {
        r.push(found[i].1);
        i = i + 1;
    }
    proof {
        assert forall|i: int| 0 <= i < r@.len() implies (#[trigger] r@[i]) < g.nodes@.len()
            && f[i].0 == g.nodes@[r@[i] as int].payload.point by {
            assert(f.contains(f[i]));
            assert(all.contains(f[i]));
        }
        assert forall|i: int, j: int| 0 <= i < r@.len() && 0 <= j < r@.len() && i != j implies r@[i]
            != r@[j] by {
            assert(r@[i] < g.nodes@.len() && r@[j] < g.nodes@.len());
            assert(f[i] != f[j]);
        }
        assert forall|i: int, j: int|
            #![trigger r@[i], r@[j]]
            0 <= i < j < r@.len() implies square_distance(
            g.nodes@[r@[i] as int].payload.point,
            p,
        ) <= square_distance(g.nodes@[r@[j] as int].payload.point, p) by {
            assert(f[i].0 == g.nodes@[r@[i] as int].payload.point);
            assert(f[j].0 == g.nodes@[r@[j] as int].payload.point);
        }
        assert forall|i: int, v: int|
            #![trigger r@[i], g.nodes@[v]]
            0 <= i < r@.len() && 0 <= v < g.nodes@.len() && !r@.contains(v as usize) implies square_distance(
            g.nodes@[r@[i] as int].payload.point,
            p,
        ) <= square_distance(g.nodes@[v].payload.point, p) by {
            let x = (g.nodes@[v].payload.point, v as usize);
            assert(all.contains(x));
            if f.contains(x) {
                let k = choose|k: int| 0 <= k < f.len() && f[k] == x;
                assert(r@[k] == v as usize);
            }
            assert(f[i].0 == g.nodes@[r@[i] as int].payload.point);
        }
    }
    r
}

/// What came of trying one pair of nodes.
pub struct Attempt {
    pub start: usize,
    pub end: usize,
    pub found: Option<(u128, Seq<usize>)>,
}

impl Attempt {
    /// Whether this is what a search between the two nodes gives. From a node to itself the way is empty.
    pub open spec fn holds(self, q: Query, cosines: Seq<u32>) -> bool {
        if self.start == self.end {
            self.found == Some((0u128, Seq::<usize>::empty()))
        } else {
            &&& self.found == found(
                q,
                self.start,
                self.end,
                cosines[self.start as int],
                cosines[self.end as int],
            )
            &&& match self.found {
                Some(f) => {
                    &&& near_best(
                        q,
                        self.start,
                        self.end,
                        cosines[self.start as int],
                        cosines[self.end as int],
                        f.0,
                    )
                    &&& q.open_walk(f.1, self.start, self.end)
                    &&& q.cost(f.1) <= f.0
                },
                None => crate::pathfinding::unreachable(q, self.start, self.end),
            }
        }
    }
}

/// Which of the first `n` attempts is taken: the first of the cheapest ones, but a pair of the same node
/// only if nothing has been found before.
pub open spec fn taken(a: Seq<Attempt>, n: int) -> Option<int>
    decreases n,
{
    if n <= 0 {
        None
    } else {
        let prev = taken(a, n - 1);
        let x = a[n - 1];
        match (prev, x.found) {
            (None, Some(f)) => Some(n - 1),
            (Some(p), Some(f)) => if x.start != x.end && f.0 < (a[p].found->0).0 {
                Some(n - 1)
            } else {
                prev
            },
            _ => prev,
        }
    }
}

/// Whether the attempts are made on all pairs of starts and ends, in their order.
pub open spec fn are_tried(
    q: Query,
    cosines: Seq<u32>,
    starts: Seq<usize>,
    ends: Seq<usize>,
    a: Seq<Attempt>,
) -> bool {
    &&& a.len() == starts.len() * ends.len()
    &&& forall|i: int|
        #![trigger a[i]]
        0 <= i < a.len() ==> a[i].start == starts[i / (ends.len() as int)] && a[i].end == ends[i
            % (ends.len() as int)] && a[i].holds(q, cosines)
}

/// Whether a segment is the one that an attempt found.
pub open spec fn is_segment(q: Query, a: Attempt, r: SegmentResult) -> bool {
    &&& a.found matches Some(f) && r.cost == f.0 && r.geometry@ == seq![
        q.graph.nodes@[a.start as int].payload.point,
    ] + path_points(q, f.1, f.1.len() as int)
}

spec fn found_view(f: Option<(u128, Vec<usize>)>) -> Option<(u128, Seq<usize>)> {
    match f {
        Some(x) => Some((x.0, x.1@)),
        None => None,
    }
}

fn try_pair(
    ctx: &mut PathfinderContext,
    graph: &Graph<NodePL, EdgePL>,
    start: usize,
    end: usize,
    preferred_match: Option<&TransitMatch>,
    cosines: &Vec<u32>,
) -> (r: Option<(u128, Vec<usize>)>)
    requires
        graph.wf(),
        start < graph.nodes@.len(),
        end < graph.nodes@.len(),
        cosines@.len() == graph.nodes@.len(),
        forall|i: int| 0 <= i < cosines@.len() ==> (#[trigger] cosines@[i]) <= 1_000_000_000,
    ensures
        (Attempt { start, end, found: found_view(r) }).holds(query(graph, MODE_BUS, 0, None, preferred_match, None), cosines@),
{
    if start == end {
        let path: Vec<usize> = Vec::new();
        assert(path@ =~= Seq::<usize>::empty());
        return Some((0, path));
    }
    assert(cosines@[start as int] <= 1_000_000_000 && cosines@[end as int] <= 1_000_000_000);
    pathfind_with_context(
        ctx,
        graph,
        start,
        end,
        MODE_BUS,
        0,
        None,
        preferred_match,
        None,
        cosines[start],
        cosines[end],
    )
}

/// What is kept of the attempts so far: which one is taken, and its way.
spec fn best_ok(a: Seq<Attempt>, best: Option<(usize, u128, Seq<usize>)>) -> bool {
    match (taken(a, a.len() as int), best) {
        (None, None) => true,
        (Some(i), Some(b)) => 0 <= i < a.len() && a[i].start == b.0 && a[i].found == Some(
            (b.1, b.2),
        ),
        _ => false,
    }
}

spec fn best_view(best: Option<(usize, u128, Vec<usize>)>) -> Option<(usize, u128, Seq<usize>)> {
    match best {
        Some(b) => Some((b.0, b.1, b.2@)),
        None => None,
    }
}

proof fn lemma_taken_step(a: Seq<Attempt>, x: Attempt, n: int)
    requires
        0 <= n <= a.len(),
    ensures
        taken(a.push(x), n) == taken(a, n),
        taken(a, n) matches Some(i) ==> 0 <= i < n && a[i].found is Some,
    decreases n,
{
    if n > 0 {
        lemma_taken_step(a, x, n - 1);
    }
}

proof fn lemma_pair_index(i: int, j: int, m: int)
    requires
        0 <= i,
        0 <= j < m,
    ensures
        (i * m + j) / m == i,
        (i * m + j) % m == j,
{
    vstd::arithmetic::div_mod::lemma_fundamental_div_mod_converse(i * m + j, m, i, j);
}

/// The cheapest way between nodes near two points. There is none if the graph has no nodes, or none of the
/// pairs that are tried is joined.
pub fn pathfind_in_tiles(
    ctx: &mut PathfinderContext,
    graph: &Graph<NodePL, EdgePL>,
    tree: &NodeTree,
    p1: Point,
    p2: Point,
    preferred_match: Option<&TransitMatch>,
    cosines: &Vec<u32>,
) -> (r: Option<SegmentResult>)
    requires
        graph.wf(),
        is_tree_of(*tree, *graph),
        cosines@.len() == graph.nodes@.len(),
        forall|i: int| 0 <= i < cosines@.len() ==> (#[trigger] cosines@[i]) <= 1_000_000_000,
    ensures
        ({
            let q = query(graph, MODE_BUS, 0, None, preferred_match, None);
            exists|starts: Seq<usize>, ends: Seq<usize>, a: Seq<Attempt>|
                {
                    &&& are_nearest(*graph, p1, 5, starts)
                    &&& are_nearest(*graph, p2, 5, ends)
                    &&& #[trigger] are_tried(q, cosines@, starts, ends, a)
                    &&& match r {
                        Some(seg) => taken(a, a.len() as int) matches Some(i) && is_segment(
                            q,
                            a[i],
                            seg,
                        ),
                        None => taken(a, a.len() as int) is None,
                    }
                }
        }),
{
    let ghost q = query(graph, MODE_BUS, 0, None, preferred_match, None);
    let starts = nearest_in(tree, graph, p1, TRIED_NODES);
    let ends = nearest_in(tree, graph, p2, TRIED_NODES);
    let ghost mut a: Seq<Attempt> = Seq::empty();
    let mut best: Option<(usize, u128, Vec<usize>)> = None;
    let ghost m = ends@.len() as int;
    let mut i: usize = 0;
    assert(a.len() == 0 * m);
    while i < starts.len()
        invariant
            graph.wf(),
            cosines@.len() == graph.nodes@.len(),
            forall|i: int| 0 <= i < cosines@.len() ==> (#[trigger] cosines@[i]) <= 1_000_000_000,
            q == query(graph, MODE_BUS, 0, None, preferred_match, None),
            m == ends@.len(),
            i <= starts@.len(),
            are_nearest(*graph, p1, 5, starts@),
            are_nearest(*graph, p2, 5, ends@),
            a.len() == i * m,
            forall|k: int|
                #![trigger a[k]]
                0 <= k < a.len() ==> a[k].start == starts@[k / m] && a[k].end == ends@[k % m]
                    && a[k].holds(q, cosines@),
            best_ok(a, best_view(best)),
        decreases starts@.len() - i,
    {
        let mut j: usize = 0;
        assert(a.len() == i * m + 0);
        while j < ends.len()
            invariant
                graph.wf(),
                cosines@.len() == graph.nodes@.len(),
                forall|i: int|
                    0 <= i < cosines@.len() ==> (#[trigger] cosines@[i]) <= 1_000_000_000,
                q == query(graph, MODE_BUS, 0, None, preferred_match, None),
                m == ends@.len(),
                i < starts@.len(),
                j <= ends@.len(),
                are_nearest(*graph, p1, 5, starts@),
                are_nearest(*graph, p2, 5, ends@),
                a.len() == i * m + j,
                forall|k: int|
                    #![trigger a[k]]
                    0 <= k < a.len() ==> a[k].start == starts@[k / m] && a[k].end == ends@[k % m]
                        && a[k].holds(q, cosines@),
                best_ok(a, best_view(best)),
            decreases ends@.len() - j,
        {
            let s: usize = starts[i];
            let e: usize = ends[j];
            assert(starts@[i as int] < graph.nodes@.len() && ends@[j as int] < graph.nodes@.len());
            let found = try_pair(ctx, graph, s, e, preferred_match, cosines);
            let ghost a0 = a;
            let ghost x = Attempt { start: s, end: e, found: found_view(found) };
            proof {
                lemma_taken_step(a0, x, a0.len() as int);
                lemma_pair_index(i as int, j as int, m);
                a = a0.push(x);
                assert forall|k: int|
                    #![trigger a[k]]
                    0 <= k < a.len() implies a[k].start == starts@[k / m] && a[k].end == ends@[k
                    % m] && a[k].holds(q, cosines@) by {
                    if k < a0.len() {
                        assert(a[k] == a0[k]);
                    }
                }
            }
            if let Some((cost, path)) = found {
                let better = match &best {
                    Some(b) => s != e && cost < b.1,
                    None => true,
                };
                if better {
                    best = Some((s, cost, path));
                }
            }
            j = j + 1;
        }
        assert((i + 1) * m == i * m + m) by (nonlinear_arith);
        i = i + 1;
    }
    assert(are_tried(q, cosines@, starts@, ends@, a));
    match best {
        Some((start, cost, path)) => {
            let mut geometry: Vec<Point> = Vec::new();
            proof {
                lemma_taken_step(a, a[0], a.len() as int);
                let t = taken(a, a.len() as int)->0;
                assert(a[t].start == start);
                assert(starts@[t / m] == start) by {
                    assert(a[t].holds(q, cosines@));
                }
                assert(0 <= t / m < starts@.len()) by (nonlinear_arith)
                    requires
                        0 <= t < starts@.len() * m,
                        m > 0,
                ;
                assert(starts@[t / m] < graph.nodes@.len());
                if a[t].start != a[t].end {
                    assert forall|k: int| 0 <= k < path@.len() implies (#[trigger] path@[k])
                        < graph.edges@.len() by {
                        lemma_walk_usable(q, path@, a[t].start, a[t].end, k);
                    }
                }
            }
            geometry.push(graph.nodes[start].payload.point);
            append_path(&mut geometry, graph, &path, Ghost(q));
            let seg = SegmentResult { geometry, cost };
            proof {
                let t = taken(a, a.len() as int)->0;
                assert(seg.geometry@ =~= seq![q.graph.nodes@[start as int].payload.point]
                    + path_points(q, path@, path@.len() as int));
                assert(is_segment(q, a[t], seg));
            }
            Some(seg)
        },
        None => None,
    }
}

/// Whether a corridor is walked window by window.
pub fn is_walked(corridor: &Vec<TileCoord>) -> (r: bool)
    ensures
        r == (corridor@.len() > 8),
{
    corridor.len() > STREAM_THRESHOLD
}

/// Where a window is left: at the node nearest to the point three quarters of the way to the target.
/// There is none if the window has no nodes.
pub fn find_window_exit(
    graph: &Graph<NodePL, EdgePL>,
    tree: &NodeTree,
    current: Point,
    final_target: Point,
) -> (r: Option<Point>)
    requires
        is_tree_of(*tree, *graph),
    ensures
        match r {
            Some(p) => exists|v: Seq<usize>| #[trigger]
                are_nearest(*graph, point_between(current, final_target, 750_000_000), 1, v)
                    && v.len() == 1 && p == graph.nodes@[v[0] as int].payload.point,
            None => graph.nodes@.len() == 0,
        },
{
    let sample = point_on_segment(current, final_target, 750_000_000);
    let near = nearest_in(tree, graph, sample, 1);
    if near.len() == 0 {
        return None;
    }
    assert(near@[0] < graph.nodes@.len());
    Some(graph.nodes[near[0]].payload.point)
}

/// A walk along a corridor, window by window.
#[derive(Debug)]
pub struct SegmentWalk {
    pub corridor: Vec<TileCoord>,
    /// The first tile of the window.
    pub from: usize,
    pub current: Point,
    pub target: Point,
    pub geometry: Vec<Point>,
    pub cost: u128,
}

/// Points with those of the next part behind them. The point that both share is not repeated.
pub open spec fn joined(points: Seq<Point>, part: Seq<Point>) -> Seq<Point> {
    if points.len() == 0 {
        part
    } else {
        points + part.skip(1)
    }
}

fn append_part(points: &mut Vec<Point>, part: &Vec<Point>)
    requires
        part@.len() > 0,
    ensures
        final(points)@ == joined(old(points)@, part@),
{
    let ghost p0 = points@;
    let start: usize = if points.len() == 0 {
        0
    } else {
        1
    };
    let mut i: usize = start;
    assert(points@ =~= p0 + part@.subrange(start as int, i as int));
    while i < part.len()
        invariant
            start <= i <= part@.len(),
            points@ =~= p0 + part@.subrange(start as int, i as int),
        decreases part@.len() - i,
    {
        points.push(part[i]);
        i = i + 1;
    }
    assert(points@ =~= joined(p0, part@));
}

/// What a walk does next.
#[derive(Debug, Clone, Copy, PartialEq, Eq, Structural)]
pub enum WalkState {
    /// Another window is needed.
    Going,
    /// The target is reached.
    Done,
    /// The window cannot be crossed.
    Stuck,
}

impl SegmentWalk {
    /// Whether there is a window.
    pub open spec fn wf(&self) -> bool {
        self.from < self.corridor@.len()
    }

    /// The end of the window.
    pub open spec fn window_end(&self) -> int {
        if self.from + 3 <= self.corridor@.len() {
            self.from + 3
        } else {
            self.corridor@.len() as int
        }
    }

    /// Whether the window reaches the end of the corridor.
    pub open spec fn at_last(&self) -> bool {
        self.window_end() >= self.corridor@.len()
    }

    /// A walk that has not begun.
    pub fn new(corridor: Vec<TileCoord>, p1: Point, p2: Point) -> (r: Self)
        requires
            corridor@.len() > 0,
        ensures
            r.wf(),
            r.corridor == corridor,
            r.from == 0,
            r.current == p1,
            r.target == p2,
            r.geometry@ == Seq::<Point>::empty(),
            r.cost == 0,
    {
        SegmentWalk { corridor, from: 0, current: p1, target: p2, geometry: Vec::new(), cost: 0 }
    }

    fn end(&self) -> (r: usize)
        requires
            self.wf(),
        ensures
            r == self.window_end(),
    {
        if self.corridor.len() - self.from >= WINDOW_SIZE {
            self.from + WINDOW_SIZE
        } else {
            self.corridor.len()
        }
    }

    /// The tiles of the window.
    pub fn window(&self) -> (r: Vec<TileCoord>)
        requires
            self.wf(),
        ensures
            r@ == self.corridor@.subrange(self.from as int, self.window_end()),
    {
        slice_to_vec(slice_subrange(self.corridor.as_slice(), self.from, self.end()))
    }

    /// Where to go in the window: to the target in the last one, else to where the window is left.
    pub fn next_target(&self, graph: &Graph<NodePL, EdgePL>, tree: &NodeTree) -> (r: Option<Point>)
        requires
            self.wf(),
            is_tree_of(*tree, *graph),
        ensures
            self.at_last() ==> r == Some(self.target),
            !self.at_last() ==> match r {
                Some(p) => exists|v: Seq<usize>| #[trigger]
                    are_nearest(
                        *graph,
                        point_between(self.current, self.target, 750_000_000),
                        1,
                        v,
                    ) && v.len() == 1 && p == graph.nodes@[v[0] as int].payload.point,
                None => graph.nodes@.len() == 0,
            },
    {
        if self.end() >= self.corridor.len() {
            Some(self.target)
        } else {
            find_window_exit(graph, tree, self.current, self.target)
        }
    }

    /// Goes on with the way through the window, if there is one. The next window shares a tile with it.
    pub fn advance(&mut self, segment: Option<SegmentResult>) -> (r: WalkState)
        requires
            old(self).wf(),
            segment matches Some(s) ==> s.geometry@.len() > 0,
        ensures
            final(self).wf(),
            final(self).corridor == old(self).corridor,
            final(self).target == old(self).target,
            match segment {
                None => r == WalkState::Stuck && *final(self) == *old(self),
                Some(s) => {
                    &&& r == (if old(self).at_last() {
                        WalkState::Done
                    } else {
                        WalkState::Going
                    })
                    &&& final(self).geometry@ == joined(old(self).geometry@, s.geometry@)
                    &&& final(self).current == final(self).geometry@.last()
                    &&& final(self).cost == (if old(self).cost + s.cost <= u128::MAX {
                        (old(self).cost + s.cost) as u128
                    } else {
                        u128::MAX
                    })
                    &&& final(self).from == (if old(self).at_last() {
                        old(self).from as int
                    } else {
                        old(self).from + 2
                    })
                },
            },
            r == WalkState::Going ==> old(self).from < final(self).from == old(self).window_end() - 1,
    {
        match segment {
            None => WalkState::Stuck,
            Some(s) => {
                let last = self.end() >= self.corridor.len();
                append_part(&mut self.geometry, &s.geometry);
                self.cost = self.cost.saturating_add(s.cost);
                self.current = self.geometry[self.geometry.len() - 1];
                if last {
                    WalkState::Done
                } else {
                    self.from = self.from + (WINDOW_SIZE - 1);
                    WalkState::Going
                }
            },
        }
    }

    /// The way that was walked.
    pub fn finish(self) -> (r: SegmentResult)
        ensures
            r.geometry == self.geometry,
            r.cost == self.cost,
    {
        SegmentResult { geometry: self.geometry, cost: self.cost }
    }
}

/// The points of a route up to stop `n`: where the way from a stop to the next is not known, a straight
/// line.
pub open spec fn route_points(
    stops: Seq<Point>,
    segments: Seq<Option<SegmentResult>>,
    n: int,
) -> Seq<Point>
    decreases n,
{
    if n <= 0 {
        seq![stops[0]]
    } else {
        match segments[n - 1] {
            Some(s) => route_points(stops, segments, n - 1) + s.geometry@.skip(1),
            None => route_points(stops, segments, n - 1).push(stops[n]),
        }
    }
}

/// Joins the ways between the stops of a route. Fewer than two stops make no route.
pub fn match_route(stops: &Vec<Point>, segments: &Vec<Option<SegmentResult>>) -> (r: Option<
    Vec<Point>,
>)
    requires
        stops@.len() >= 2 ==> segments@.len() == stops@.len() - 1,
        forall|i: int|
            #![trigger segments@[i]]
            0 <= i < segments@.len() ==> (segments@[i] matches Some(s) ==> s.geometry@.len() > 0),
    ensures
        match r {
            Some(points) => stops@.len() >= 2 && points@ == route_points(
                stops@,
                segments@,
                segments@.len() as int,
            ),
            None => stops@.len() < 2,
        },
{
    if stops.len() < 2 {
        return None;
    }
    let mut points: Vec<Point> = Vec::new();
    points.push(stops[0]);
    let mut i: usize = 0;
    assert(points@ =~= route_points(stops@, segments@, 0));
    while i < segments.len()
        invariant
            stops@.len() >= 2,
            segments@.len() == stops@.len() - 1,
            forall|i: int|
                #![trigger segments@[i]]
                0 <= i < segments@.len() ==> (segments@[i] matches Some(s) ==> s.geometry@.len()
                    > 0),
            i <= segments@.len(),
            points@.len() > 0,
            points@ == route_points(stops@, segments@, i as int),
        decreases segments@.len() - i,
    {
        match &segments[i] {
            Some(s) => {
                assert(segments@[i as int] is Some);
                append_part(&mut points, &s.geometry);
            },
            None => {
                points.push(stops[i + 1]);
            },
        }
        i = i + 1;
    }
    Some(points)
}

// What the match of a route promises.

/// An attempt is taken if any found a way. None between two different nodes found a cheaper one, and none
/// before the one that is taken one as cheap. From a node to itself the way is taken only if nothing was found
/// before.
pub proof fn lemma_taken(a: Seq<Attempt>, n: int)
    requires
        0 <= n <= a.len(),
    ensures
        taken(a, n) is None <==> forall|j: int| 0 <= j < n ==> (#[trigger] a[j]).found is None,
        taken(a, n) matches Some(p) ==> {
            &&& 0 <= p < n
            &&& a[p].found is Some
            &&& forall|j: int|
                #![trigger a[j]]
                0 <= j < n && a[j].found is Some && a[j].start != a[j].end ==> (a[p].found->0).0 <= (
                a[j].found->0).0 && (j < p ==> (a[p].found->0).0 < (a[j].found->0).0)
            &&& a[p].start == a[p].end ==> forall|j: int|
                0 <= j < p ==> (#[trigger] a[j]).found is None
        },
    decreases n,
{
    if n > 0 {
        lemma_taken(a, n - 1);
        let x = a[n - 1];
    }
}

/// The course of a segment leads from the node at which the attempt starts to the one at which it ends, along
/// the courses of the edges that it found.
pub proof fn lemma_segment_is_strung(q: Query, cosines: Seq<u32>, a: Attempt, r: SegmentResult)
    requires
        a.holds(q, cosines),
        is_segment(q, a, r),
        forall|i: int|
            0 <= i < (a.found->0).1.len() ==> runs_its_way(q, #[trigger] (a.found->0).1[i]),
    ensures
        r.geometry@.len() > 0,
        r.geometry@.first() == q.graph.nodes@[a.start as int].payload.point,
        r.geometry@.last() == q.graph.nodes@[a.end as int].payload.point,
        exists|at: Seq<int>| #[trigger] strung(courses(q, (a.found->0).1), at, r.geometry@),
        q.cost((a.found->0).1) <= r.cost,
{
    let es = (a.found->0).1;
    lemma_path_is_strung(q, es, a.start, a.end);
    if a.start == a.end {
        assert(q.cost(es) == 0);
    }
}

/// Whether the part of a line between two positions is what is drawn from a stop to the next: the segment behind
/// its first point, or the next stop if there is no segment.
pub open spec fn draws_segment(
    stops: Seq<Point>,
    segments: Seq<Option<SegmentResult>>,
    i: int,
    at: Seq<int>,
    line: Seq<Point>,
) -> bool {
    &&& 0 <= at[i] <= at[i + 1] < line.len()
    &&& match segments[i] {
        Some(s) => {
            &&& at[i + 1] - at[i] == s.geometry@.len() - 1
            &&& forall|k: int|
                #![trigger s.geometry@[k]]
                0 < k < s.geometry@.len() ==> line[at[i] + k] == s.geometry@[k]
        },
        None => at[i + 1] == at[i] + 1 && line[at[i + 1]] == stops[i + 1],
    }
}

/// Whether a line is what is drawn of the first `n` segments, one behind the other, from the first stop on.
pub open spec fn draws_segments(
    stops: Seq<Point>,
    segments: Seq<Option<SegmentResult>>,
    n: int,
    at: Seq<int>,
    line: Seq<Point>,
) -> bool {
    &&& at.len() == n + 1
    &&& at[0] == 0
    &&& at[n] == line.len() - 1
    &&& line.len() > 0
    &&& line[0] == stops[0]
    &&& forall|i: int| 0 <= i < n ==> #[trigger] draws_segment(stops, segments, i, at, line)
}

/// A route is drawn from its first stop, along its segments in their order, with the next stop where a segment
/// is missing, and nothing else.
pub proof fn lemma_route_follows_segments(
    stops: Seq<Point>,
    segments: Seq<Option<SegmentResult>>,
    n: int,
)
    requires
        0 <= n <= segments.len(),
        stops.len() == segments.len() + 1,
        forall|i: int|
            #![trigger segments[i]]
            0 <= i < segments.len() ==> (segments[i] matches Some(s) ==> s.geometry@.len() > 0),
    ensures
        exists|at: Seq<int>| #[trigger]
            draws_segments(stops, segments, n, at, route_points(stops, segments, n)),
    decreases n,
{
    let line = route_points(stops, segments, n);
    if n == 0 {
        assert(draws_segments(stops, segments, n, seq![0int], line));
    } else {
        lemma_route_follows_segments(stops, segments, n - 1);
        let before = route_points(stops, segments, n - 1);
        let at = choose|at: Seq<int>| #[trigger] draws_segments(stops, segments, n - 1, at, before);
        let to = at.push(line.len() - 1);
        assert forall|i: int| 0 <= i < n implies #[trigger] draws_segment(
            stops,
            segments,
            i,
            to,
            line,
        ) by {
            if i < n - 1 {
                assert(draws_segment(stops, segments, i, at, before));
                assert(to[i] == at[i] && to[i + 1] == at[i + 1]);
            } else if let Some(s) = segments[i] {
                assert(line =~= before + s.geometry@.skip(1));
                assert forall|k: int| #![trigger s.geometry@[k]] 0 < k < s.geometry@.len() implies line[to[i]
                    + k] == s.geometry@[k] by {
                    assert(s.geometry@.skip(1)[k - 1] == s.geometry@[k]);
                }
            }
        }
        assert(to[0] == at[0]);
        assert(line[0] == before[0]);
        assert(to[n] == line.len() - 1);
        assert(draws_segments(stops, segments, n, to, line));
    }
}

/// Parts that meet are joined without the point at which they meet being repeated: first the one, and from its
/// last point on the other.
pub proof fn lemma_joined(points: Seq<Point>, part: Seq<Point>)
    requires
        part.len() > 0,
        points.len() > 0 ==> points.last() == part.first(),
    ensures
        points.len() > 0 ==> joined(points, part).len() == points.len() + part.len() - 1,
        joined(points, part).take(points.len() as int) == points,
        joined(points, part).subrange(
            joined(points, part).len() - part.len(),
            joined(points, part).len() as int,
        ) == part,
{
    let all = joined(points, part);
    assert(all.take(points.len() as int) =~= points);
    assert(all.subrange(all.len() - part.len(), all.len() as int) =~= part);
}

} // verus!
