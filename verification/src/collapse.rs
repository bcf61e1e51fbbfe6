//! The last steps of building a graph: chains of like edges become single edges, components are
//! numbered, and every edge gets its opposite.

use crate::geometry::Point;
use crate::graph::{Edge, EdgeIndex, EdgePL, EdgeView, Graph, Node, NodeIndex, NodePL};
use vstd::prelude::*;
use vstd::slice::slice_to_vec;

verus! {

pub const NODE_FLAG_STATION: u8 = 1;

pub const NODE_FLAG_TURN_CYCLE: u8 = 2;

pub const NODE_FLAG_RESTRICTION: u8 = 4;

/// An edge while the graph is being rebuilt.
struct WorkEdge {
    from: NodeIndex,
    to: NodeIndex,
    payload: EdgePL,
    active: bool,
}

/// An edge while the graph is being rebuilt, as plain values.
pub struct WorkView {
    pub from: NodeIndex,
    pub to: NodeIndex,
    pub payload: EdgeView,
    pub active: bool,
}

impl View for WorkEdge {
    type V = WorkView;

    closed spec fn view(&self) -> WorkView {
        WorkView {
            from: self.from,
            to: self.to,
            payload: self.payload@,
            active: self.active,
        }
    }
}

pub type Work = Seq<WorkView>;

/// Whether an edge begins or ends at a node.
pub open spec fn touches(e: WorkView, node: NodeIndex) -> bool {
    e.from == node || e.to == node
}

/// The other end of an edge that touches the node.
pub open spec fn other_end(e: WorkView, node: NodeIndex) -> NodeIndex {
    if e.from == node {
        e.to
    } else {
        e.from
    }
}

/// The positions of the edges that touch a node, ascending.
pub open spec fn touching(w: Work, node: NodeIndex) -> Seq<usize>
    decreases w.len(),
{
    if w.len() == 0 {
        Seq::empty()
    } else {
        let rest = touching(w.drop_last(), node);
        if touches(w.last(), node) {
            rest.push((w.len() - 1) as usize)
        } else {
            rest
        }
    }
}

/// Those of the positions that hold edges in use.
pub open spec fn only_active(w: Work, list: Seq<usize>) -> Seq<usize>
    decreases list.len(),
{
    if list.len() == 0 {
        Seq::empty()
    } else {
        let rest = only_active(w, list.drop_last());
        if w[list.last() as int].active {
            rest.push(list.last())
        } else {
            rest
        }
    }
}

/// The positions of the edges in use that touch a node, ascending.
pub open spec fn incident(w: Work, node: NodeIndex) -> Seq<usize> {
    only_active(w, touching(w, node))
}

/// Whether two edges may become one: they are open the same way, have the same level, lines and
/// modes and no restriction, and one-way edges meet head to tail.
pub open spec fn similar(a: WorkView, b: WorkView) -> bool {
    &&& (a.payload.oneway != 0) == (b.payload.oneway != 0)
    &&& a.payload.level == b.payload.level
    &&& a.payload.lines == b.payload.lines
    &&& !a.payload.restriction
    &&& !b.payload.restriction
    &&& a.payload.allowed_modes == b.payload.allowed_modes
    &&& a.payload.oneway != 0 && b.payload.oneway != 0 ==> a.from == b.to || a.to == b.from
}

/// Whether an edge in use, two aside, joins two nodes.
pub open spec fn joined(w: Work, a: NodeIndex, b: NodeIndex, ea: int, eb: int) -> bool {
    exists|k: int|
        0 <= k < w.len() && k != ea && k != eb && (#[trigger] w[k]).active && ((w[k].from == a
            && w[k].to == b) || (w[k].from == b && w[k].to == a))
}

/// The course of an edge from one of its ends to the other.
pub open spec fn course(e: WorkView, from: NodeIndex, to: NodeIndex) -> Seq<Point> {
    let g = e.payload.geometry;
    if g.len() < 2 {
        g
    } else if e.from == from && e.to == to {
        g
    } else if e.from == to && e.to == from {
        g.reverse()
    } else {
        Seq::empty()
    }
}

/// What the edge carries that takes the place of two: both courses, the shared point once, the sum
/// of both costs, and the way's number only if both have the same.
pub open spec fn merged(
    first: WorkView,
    second: WorkView,
    via: NodeIndex,
    from: NodeIndex,
    to: NodeIndex,
) -> EdgeView {
    let a = course(first, from, via);
    let b = course(second, via, to);
    if a.len() == 0 || b.len() == 0 {
        first.payload
    } else {
        EdgeView {
            geometry: if a.last() == b.first() {
                a + b.drop_first()
            } else {
                a + b
            },
            cost: crate::router::weights::capped((first.payload.cost + second.payload.cost) as nat),
            osmid: if first.payload.osmid != second.payload.osmid {
                0
            } else {
                first.payload.osmid
            },
            is_reverse: false,
            ..first.payload
        }
    }
}

/// Whether a node without flags is nothing but a joint of two like edges to different nodes, which
/// no other edge joins.
pub open spec fn is_joint(w: Work, flag: u8, node: NodeIndex) -> bool {
    let inc = incident(w, node);
    let ea = inc[0] as int;
    let eb = inc[1] as int;
    &&& flag == 0
    &&& inc.len() == 2
    &&& other_end(w[ea], node) != other_end(w[eb], node)
    &&& !joined(w, other_end(w[ea], node), other_end(w[eb], node), ea, eb)
    &&& similar(w[ea], w[eb])
}

/// The edges once a node has been looked at: at a joint, a single edge takes the place of the two.
/// One-way edges keep their direction.
pub open spec fn collapse_at(w: Work, flag: u8, node: NodeIndex) -> Work {
    if is_joint(w, flag, node) {
        let inc = incident(w, node);
        let ea = inc[0] as int;
        let eb = inc[1] as int;
        let turn = w[ea].payload.oneway != 0 && other_end(w[ea], node) != w[ea].from;
        let first = if turn {
            w[eb]
        } else {
            w[ea]
        };
        let second = if turn {
            w[ea]
        } else {
            w[eb]
        };
        let from = other_end(first, node);
        let to = other_end(second, node);
        w.update(ea, WorkView { active: false, ..w[ea] }).update(
            eb,
            WorkView { active: false, ..w[eb] },
        ).push(WorkView { from, to, payload: merged(first, second, node, from, to), active: true })
    } else {
        w
    }
}

pub open spec fn flag_of(flags: Seq<u8>, i: int) -> u8 {
    if i < flags.len() {
        flags[i]
    } else {
        0
    }
}

/// The edges once the first `n` nodes have been looked at, one after another.
pub open spec fn collapse_upto(w: Work, flags: Seq<u8>, n: int) -> Work
    decreases n,
{
    if n <= 0 {
        w
    } else {
        collapse_at(collapse_upto(w, flags, n - 1), flag_of(flags, n - 1), (n - 1) as usize)
    }
}

/// The edges of a graph before anything has been looked at.
pub open spec fn work_of(edges: Seq<Edge<EdgePL>>) -> Work {
    edges.map_values(
        |e: Edge<EdgePL>| WorkView { from: e.from, to: e.to, payload: e.payload@, active: true },
    )
}

/// Whether a node stays: an edge in use touches it, or it is a station.
pub open spec fn stays(w: Work, flags: Seq<u8>, i: int) -> bool {
    incident(w, i as usize).len() > 0 || flag_of(flags, i) & NODE_FLAG_STATION != 0
}

/// How many of the first `i` nodes stay.
pub open spec fn staying(w: Work, flags: Seq<u8>, i: int) -> nat
    decreases i,
{
    if i <= 0 {
        0
    } else {
        staying(w, flags, i - 1) + if stays(w, flags, i - 1) {
            1nat
        } else {
            0
        }
    }
}

/// How many of the first `k` edges are in use.
pub open spec fn in_use(w: Work, k: int) -> nat
    decreases k,
{
    if k <= 0 {
        0
    } else {
        in_use(w, k - 1) + if w[k - 1].active {
            1nat
        } else {
            0
        }
    }
}

/// Whether a graph is what is left: the nodes that stay and the edges in use, in their order, with
/// the nodes renumbered.
pub open spec fn rebuilt(
    before: Graph<NodePL, EdgePL>,
    w: Work,
    flags: Seq<u8>,
    after: Graph<NodePL, EdgePL>,
    flags_after: Seq<u8>,
) -> bool {
    let n = before.nodes@.len() as int;
    &&& after.nodes@.len() == staying(w, flags, n)
    &&& flags_after.len() == staying(w, flags, n)
    &&& after.transit_lines@ == before.transit_lines@
    &&& after.edges@.len() == in_use(w, w.len() as int)
    &&& forall|i: int|
        #![trigger stays(w, flags, i)]
        0 <= i < n && stays(w, flags, i) ==> {
            let j = staying(w, flags, i) as int;
            &&& after.nodes@[j].payload == before.nodes@[i].payload
            &&& flags_after[j] == flag_of(flags, i)
        }
    &&& forall|k: int|
        #![trigger w[k]]
        0 <= k < w.len() && w[k].active ==> {
            let e = after.edges@[in_use(w, k) as int];
            &&& e.payload@ == w[k].payload
            &&& e.from == staying(w, flags, w[k].from as int)
            &&& e.to == staying(w, flags, w[k].to as int)
        }
}

// Lists of edges.

/// Positions are in range, and an edge touches the node exactly if it is listed.
proof fn lemma_touching(w: Work, node: NodeIndex)
    requires
        w.len() <= usize::MAX,
    ensures
        forall|k: int|
            #![trigger touching(w, node)[k]]
            0 <= k < touching(w, node).len() ==> touching(w, node)[k] < w.len() && touches(
                w[touching(w, node)[k] as int],
                node,
            ),
        forall|k: int|
            #![trigger w[k]]
            0 <= k < w.len() && touches(w[k], node) ==> touching(w, node).contains(k as usize),
    decreases w.len(),
{
    if w.len() > 0 {
        let p = w.drop_last();
        lemma_touching(p, node);
        let a = touching(p, node);
        let b = touching(w, node);
        assert forall|k: int| #![trigger b[k]] 0 <= k < b.len() implies b[k] < w.len() && touches(
            w[b[k] as int],
            node,
        ) by {
            if k < a.len() {
                assert(b[k] == a[k]);
                assert(p[a[k] as int] == w[a[k] as int]);
            }
        }
        assert forall|k: int| #![trigger w[k]] 0 <= k < w.len() && touches(w[k], node) implies b.contains(
            k as usize,
        ) by {
            if k < p.len() {
                assert(p[k] == w[k]);
                let m = choose|m: int| 0 <= m < a.len() && a[m] == k as usize;
                assert(b[m] == k as usize);
            } else {
                assert(b[a.len() as int] == k as usize);
            }
        }
    }
}

/// What is left of a list is in range and in use.
proof fn lemma_only_active(w: Work, list: Seq<usize>)
    ensures
        forall|k: int|
            #![trigger only_active(w, list)[k]]
            0 <= k < only_active(w, list).len() ==> list.contains(only_active(w, list)[k])
                && w[only_active(w, list)[k] as int].active,
        forall|x: usize|
            #![trigger list.contains(x)]
            list.contains(x) && w[x as int].active ==> only_active(w, list).contains(x),
    decreases list.len(),
{
    if list.len() > 0 {
        let p = list.drop_last();
        lemma_only_active(w, p);
        let a = only_active(w, p);
        let b = only_active(w, list);
        assert forall|k: int| #![trigger b[k]] 0 <= k < b.len() implies list.contains(b[k])
            && w[b[k] as int].active by {
            if k < a.len() {
                assert(a[k] == b[k]);
                let m = choose|m: int| 0 <= m < p.len() && p[m] == a[k];
                assert(list[m] == a[k]);
            } else {
                assert(list[list.len() - 1] == b[k]);
            }
        }
        assert forall|x: usize|
            #![trigger list.contains(x)]
            list.contains(x) && w[x as int].active implies b.contains(x) by {
            let m = choose|m: int| 0 <= m < list.len() && list[m] == x;
            if m < p.len() {
                assert(p[m] == x);
                assert(p.contains(x));
                let q = choose|q: int| 0 <= q < a.len() && a[q] == x;
                assert(b[q] == x);
            } else {
                assert(b[a.len() as int] == x);
            }
        }
    }
}

/// Lists depend on the ends of the edges only.
proof fn lemma_touching_same(a: Work, b: Work, node: NodeIndex)
    requires
        a.len() == b.len(),
        forall|k: int| 0 <= k < a.len() ==> (#[trigger] a[k]).from == b[k].from && a[k].to == b[k].to,
    ensures
        touching(a, node) == touching(b, node),
    decreases a.len(),
{
    if a.len() > 0 {
        let p = a.drop_last();
        let q = b.drop_last();
        assert forall|k: int| 0 <= k < p.len() implies (#[trigger] p[k]).from == q[k].from && p[k].to
            == q[k].to by {
            assert(a[k] == p[k]);
        }
        lemma_touching_same(p, q, node);
        assert(a[a.len() - 1] == a.last());
    }
}

spec fn views(edges: Seq<WorkEdge>) -> Work {
    edges.map_values(|e: WorkEdge| e@)
}

/// Whether the lists of a graph that is being rebuilt are right.
spec fn lists_ok(w: Work, lists: Seq<Vec<usize>>, n: nat) -> bool {
    &&& lists.len() == n
    &&& forall|i: int|
        #![trigger lists[i]]
        0 <= i < n ==> lists[i]@ == touching(w, i as usize)
    &&& forall|k: int| 0 <= k < w.len() ==> (#[trigger] w[k]).from < n && w[k].to < n
}

fn same_lines(a: &Vec<u32>, b: &Vec<u32>) -> (r: bool)
    ensures
        r == (a@ == b@),
{
    if a.len() != b.len() {
        return false;
    }
    let mut i: usize = 0;
    while i < a.len()
        invariant
            i <= a@.len(),
            a@.len() == b@.len(),
            forall|j: int| 0 <= j < i ==> a@[j] == b@[j],
        decreases a@.len() - i,
    {
        if a[i] != b[i] {
            return false;
        }
        i = i + 1;
    }
    assert(a@ =~= b@);
    true
}

fn edges_similar(a: &WorkEdge, b: &WorkEdge) -> (r: bool)
    ensures
        r == similar(a@, b@),
{
    if (a.payload.oneway != 0) != (b.payload.oneway != 0) {
        return false;
    }
    if a.payload.level != b.payload.level {
        return false;
    }
    if !same_lines(&a.payload.lines, &b.payload.lines) {
        return false;
    }
    if a.payload.restriction || b.payload.restriction {
        return false;
    }
    if a.payload.allowed_modes != b.payload.allowed_modes {
        return false;
    }
    if a.payload.oneway != 0 && b.payload.oneway != 0 && a.from != b.to && a.to != b.from {
        return false;
    }
    true
}

fn other(edge: &WorkEdge, node: NodeIndex) -> (r: NodeIndex)
    ensures
        r == other_end(edge@, node),
{
    if edge.from == node {
        edge.to
    } else {
        edge.from
    }
}

fn oriented_geometry(edge: &WorkEdge, from: NodeIndex, to: NodeIndex) -> (r: Vec<Point>)
    ensures
        r@ == course(edge@, from, to),
{
    let g = &edge.payload.geometry;
    if g.len() < 2 || (edge.from == from && edge.to == to) {
        return slice_to_vec(g.as_slice());
    }
    let mut r: Vec<Point> = Vec::new();
    if edge.from == to && edge.to == from {
        let n: usize = g.len();
        let mut i: usize = 0;
        while i < n
            invariant
                n == g@.len(),
                i <= n,
                r@.len() == i,
                forall|j: int| 0 <= j < i ==> #[trigger] r@[j] == g@[n - 1 - j],
            decreases n - i,
        {
            r.push(g[n - 1 - i]);
            i = i + 1;
        }
        assert(r@ =~= g@.reverse());
    }
    r
}

fn merge_payload(
    first: &WorkEdge,
    second: &WorkEdge,
    via: NodeIndex,
    new_from: NodeIndex,
    new_to: NodeIndex,
) -> (r: EdgePL)
    ensures
        r@ == merged(first@, second@, via, new_from, new_to),
{
    let mut a = oriented_geometry(first, new_from, via);
    let mut b = oriented_geometry(second, via, new_to);
    if a.len() == 0 || b.len() == 0 {
        return first.payload.clone();
    }
    let ghost ga = a@;
    let ghost gb = b@;
    if a[a.len() - 1] == b[0] {
        b.remove(0);
        assert(b@ =~= gb.drop_first());
    }
    a.append(&mut b);
    let mut payload = first.payload.clone();
    payload.geometry = a;
    payload.cost = first.payload.cost.saturating_add(second.payload.cost);
    if first.payload.osmid != second.payload.osmid {
        payload.osmid = 0;
    }
    payload.is_reverse = false;
    payload
}

fn active_incident_edges(
    list: &Vec<EdgeIndex>,
    edges: &Vec<WorkEdge>,
    Ghost(node): Ghost<NodeIndex>,
) -> (r: Vec<EdgeIndex>)
    requires
        list@ == touching(views(edges@), node),
    ensures
        r@ == incident(views(edges@), node),
        forall|k: int|
            0 <= k < r@.len() ==> (#[trigger] r@[k]) < edges@.len() && edges@[r@[k] as int]@.active
                && touches(edges@[r@[k] as int]@, node),
{
    let ghost w = views(edges@);
    proof {
        assert(edges.len() == edges@.len());
        lemma_touching(w, node);
        lemma_only_active(w, touching(w, node));
    }
    let mut r: Vec<EdgeIndex> = Vec::new();
    let mut i: usize = 0;
    while i < list.len()
        invariant
            i <= list@.len(),
            w == views(edges@),
            list@ == touching(w, node),
            forall|k: int|
                #![trigger touching(w, node)[k]]
                0 <= k < touching(w, node).len() ==> touching(w, node)[k] < w.len(),
            r@ == only_active(w, list@.take(i as int)),
        decreases list@.len() - i,
    {
        let k: usize = list[i];
        assert(touching(w, node)[i as int] == k);
        assert(list@.take(i + 1).drop_last() =~= list@.take(i as int));
        assert(w[k as int] == edges@[k as int]@);
        if edges[k].active {
            r.push(k);
        }
        i = i + 1;
    }
    assert(list@.take(i as int) =~= list@);
    proof {
        assert forall|k: int| 0 <= k < r@.len() implies (#[trigger] r@[k]) < edges@.len()
            && edges@[r@[k] as int]@.active && touches(edges@[r@[k] as int]@, node) by {
            let x = only_active(w, touching(w, node))[k];
            assert(r@[k] == x);
            let m = choose|m: int| 0 <= m < touching(w, node).len() && touching(w, node)[m] == x;
            assert(touching(w, node)[m] == x);
            assert(w[x as int] == edges@[x as int]@);
        }
    }
    r
}

fn has_edge_between(
    list: &Vec<EdgeIndex>,
    edges: &Vec<WorkEdge>,
    a: NodeIndex,
    b: NodeIndex,
    ea: EdgeIndex,
    eb: EdgeIndex,
) -> (r: bool)
    requires
        list@ == touching(views(edges@), a),
    ensures
        r == joined(views(edges@), a, b, ea as int, eb as int),
{
    let ghost w = views(edges@);
    proof {
        assert(edges.len() == edges@.len());
        lemma_touching(w, a);
    }
    let mut i: usize = 0;
    while i < list.len()
        invariant
            i <= list@.len(),
            w == views(edges@),
            list@ == touching(w, a),
            forall|k: int|
                #![trigger touching(w, a)[k]]
                0 <= k < touching(w, a).len() ==> touching(w, a)[k] < w.len(),
            forall|m: int|
                #![trigger list@[m]]
                0 <= m < i ==> {
                    let k = list@[m] as int;
                    !(k != ea && k != eb && w[k].active && ((w[k].from == a && w[k].to == b) || (
                    w[k].from == b && w[k].to == a)))
                },
        decreases list@.len() - i,
    {
        let k: usize = list[i];
        assert(touching(w, a)[i as int] == k);
        assert(w[k as int] == edges@[k as int]@);
        if k != ea && k != eb && edges[k].active && ((edges[k].from == a && edges[k].to == b) || (
        edges[k].from == b && edges[k].to == a)) {
            assert(w[k as int].active);
            return true;
        }
        i = i + 1;
    }
    proof {
        if joined(w, a, b, ea as int, eb as int) {
            let k = choose|k: int|
                0 <= k < w.len() && k != ea && k != eb && (#[trigger] w[k]).active && ((w[k].from
                    == a && w[k].to == b) || (w[k].from == b && w[k].to == a));
            assert(touching(w, a).contains(k as usize));
            let m = choose|m: int| 0 <= m < list@.len() && list@[m] == k as usize;
            assert(list@[m] == k as usize);
        }
    }
    false
}

/// Copies of the edges, and for each node the list of those that touch it.
fn begin(graph: &Graph<NodePL, EdgePL>) -> (r: (Vec<WorkEdge>, Vec<Vec<EdgeIndex>>))
    requires
        graph.wf(),
    ensures
        views(r.0@) == work_of(graph.edges@),
        lists_ok(views(r.0@), r.1@, graph.nodes@.len()),
{
    let n: usize = graph.nodes.len();
    let mut lists: Vec<Vec<EdgeIndex>> = Vec::new();
    let mut i: usize = 0;
    while i < n
        invariant
            n == graph.nodes@.len(),
            i <= n,
            lists@.len() == i,
            forall|j: int| #![trigger lists@[j]] 0 <= j < i ==> lists@[j]@.len() == 0,
        decreases n - i,
    {
        lists.push(Vec::new());
        i = i + 1;
    }
    let mut edges: Vec<WorkEdge> = Vec::new();
    proof {
        assert forall|j: int| #![trigger lists@[j]] 0 <= j < n implies lists@[j]@ == touching(
            views(edges@),
            j as usize,
        ) by {
            assert(views(edges@).len() == 0);
            assert(lists@[j]@ =~= Seq::<usize>::empty());
        }
    }
    let mut k: usize = 0;
    while k < graph.edges.len()
        invariant
            graph.wf(),
            n == graph.nodes@.len(),
            k <= graph.edges@.len(),
            edges@.len() == k,
            views(edges@) == work_of(graph.edges@.take(k as int)),
            lists_ok(views(edges@), lists@, n as nat),
        decreases graph.edges@.len() - k,
    {
        let e = &graph.edges[k];
        assert(graph.edges@[k as int] == *e);
        let from: usize = e.from;
        let to: usize = e.to;
        let copy = WorkEdge { from, to, payload: e.payload.clone(), active: true };
        proof {
            assert(work_of(graph.edges@.take(k + 1)) =~= work_of(graph.edges@.take(k as int)).push(
                copy@,
            ));
        }
        add_work(&mut edges, &mut lists, copy, Ghost(n as nat));
        k = k + 1;
    }
    assert(graph.edges@.take(k as int) =~= graph.edges@);
    (edges, lists)
}

/// Adds an edge to the edges and to the lists of its ends.
fn add_work(
    edges: &mut Vec<WorkEdge>,
    lists: &mut Vec<Vec<EdgeIndex>>,
    e: WorkEdge,
    Ghost(n): Ghost<nat>,
)
    requires
        lists_ok(views(old(edges)@), old(lists)@, n),
        e@.from < n,
        e@.to < n,
    ensures
        final(edges)@ == old(edges)@.push(e),
        views(final(edges)@) == views(old(edges)@).push(e@),
        lists_ok(views(final(edges)@), final(lists)@, n),
{
    let ghost w = views(edges@);
    let k: usize = edges.len();
    let from: usize = e.from;
    let to: usize = e.to;
    let ghost ev = e@;
    edges.push(e);
    lists[from].push(k);
    if to != from {
        lists[to].push(k);
    }
    proof {
        let w2 = views(edges@);
        assert(lists.len() == n);
        assert(edges.len() == edges@.len());
        assert(w2 =~= w.push(ev));
        assert(w2.drop_last() =~= w);
        assert forall|i: int| #![trigger lists@[i]] 0 <= i < n implies lists@[i]@ == touching(
            w2,
            i as usize,
        ) by {
            assert(old(lists)@[i]@ == touching(w, i as usize));
        }
        assert forall|j: int| 0 <= j < w2.len() implies (#[trigger] w2[j]).from < n && w2[j].to < n by {
            if j < w.len() {
                assert(w2[j] == w[j]);
            }
        }
    }
}

/// Looks at one node.
fn collapse_node(
    edges: &mut Vec<WorkEdge>,
    lists: &mut Vec<Vec<EdgeIndex>>,
    flag: u8,
    node: NodeIndex,
    Ghost(n): Ghost<nat>,
)
    requires
        lists_ok(views(old(edges)@), old(lists)@, n),
        node < n,
    ensures
        views(final(edges)@) == collapse_at(views(old(edges)@), flag, node),
        lists_ok(views(final(edges)@), final(lists)@, n),
{
    let ghost w = views(edges@);
    if flag != 0 {
        return ;
    }
    assert(lists@[node as int]@ == touching(w, node));
    let inc = active_incident_edges(&lists[node], edges, Ghost(node));
    if inc.len() != 2 {
        return ;
    }
    let ea: usize = inc[0];
    let eb: usize = inc[1];
    proof {
        assert(inc@[0] == ea && inc@[1] == eb);
        assert(w[ea as int] == edges@[ea as int]@);
        assert(w[eb as int] == edges@[eb as int]@);
        assert(edges.len() == edges@.len());
        lemma_incident_ascends(w, node);
    }
    let a: usize = other(&edges[ea], node);
    let b: usize = other(&edges[eb], node);
    if a == b {
        return ;
    }
    assert(a < n && b < n) by {
        assert(w[ea as int].from < n && w[eb as int].from < n);
    }
    assert(lists@[a as int]@ == touching(w, a));
    if has_edge_between(&lists[a], edges, a, b, ea, eb) {
        return ;
    }
    if !edges_similar(&edges[ea], &edges[eb]) {
        return ;
    }
    let turn = edges[ea].payload.oneway != 0 && a != edges[ea].from;
    let first: usize = if turn { eb } else { ea };
    let second: usize = if turn { ea } else { eb };
    let from: usize = other(&edges[first], node);
    let to: usize = other(&edges[second], node);
    let payload = merge_payload(&edges[first], &edges[second], node, from, to);
    let ghost pv = payload@;
    edges[ea].active = false;
    edges[eb].active = false;
    proof {
        let w1 = views(edges@);
        let mid = w.update(ea as int, WorkView { active: false, ..w[ea as int] }).update(
            eb as int,
            WorkView { active: false, ..w[eb as int] },
        );
        assert(w1 =~= mid);
        assert forall|i: int| #![trigger lists@[i]] 0 <= i < n implies lists@[i]@ == touching(
            w1,
            i as usize,
        ) by {
            lemma_touching_same(w, w1, i as usize);
        }
        assert forall|j: int| 0 <= j < w1.len() implies (#[trigger] w1[j]).from < n && w1[j].to < n by {
            assert(w[j].from < n);
        }
        assert(is_joint(w, flag, node));
    }
    add_work(edges, lists, WorkEdge { from, to, payload, active: true }, Ghost(n));
}

/// Positions in a list ascend.
proof fn lemma_incident_ascends(w: Work, node: NodeIndex)
    requires
        w.len() <= usize::MAX,
    ensures
        forall|i: int, j: int|
            0 <= i < j < incident(w, node).len() ==> incident(w, node)[i] < incident(w, node)[j],
{
    lemma_touching_ascends(w, node);
    lemma_active_ascends(w, touching(w, node));
}

proof fn lemma_touching_ascends(w: Work, node: NodeIndex)
    requires
        w.len() <= usize::MAX,
    ensures
        forall|i: int, j: int|
            0 <= i < j < touching(w, node).len() ==> touching(w, node)[i] < touching(w, node)[j],
        forall|i: int|
            0 <= i < touching(w, node).len() ==> (#[trigger] touching(w, node)[i]) < w.len(),
    decreases w.len(),
{
    if w.len() > 0 {
        lemma_touching_ascends(w.drop_last(), node);
        let a = touching(w.drop_last(), node);
        let b = touching(w, node);
        assert forall|i: int, j: int| 0 <= i < j < b.len() implies b[i] < b[j] by {
            assert(a[i] == b[i]);
            if j < a.len() {
                assert(a[j] == b[j]);
            }
        }
        assert forall|i: int| 0 <= i < b.len() implies (#[trigger] b[i]) < w.len() by {
            if i < a.len() {
                assert(a[i] == b[i]);
            }
        }
    }
}

proof fn lemma_active_ascends(w: Work, list: Seq<usize>)
    requires
        forall|i: int, j: int| 0 <= i < j < list.len() ==> list[i] < list[j],
    ensures
        forall|i: int, j: int|
            0 <= i < j < only_active(w, list).len() ==> only_active(w, list)[i] < only_active(
                w,
                list,
            )[j],
    decreases list.len(),
{
    if list.len() > 0 {
        let p = list.drop_last();
        lemma_active_ascends(w, p);
        lemma_only_active(w, p);
        let a = only_active(w, p);
        let b = only_active(w, list);
        assert forall|i: int, j: int| 0 <= i < j < b.len() implies b[i] < b[j] by {
            assert(a[i] == b[i]);
            if j < a.len() {
                assert(a[j] == b[j]);
            } else {
                let m = choose|m: int| 0 <= m < p.len() && p[m] == a[i];
                assert(list[m] < list[list.len() - 1]);
            }
        }
    }
}

proof fn lemma_staying_bound(w: Work, flags: Seq<u8>, i: int, j: int)
    requires
        0 <= i <= j,
    ensures
        staying(w, flags, i) <= staying(w, flags, j) <= staying(w, flags, i) + (j - i),
        i < j && stays(w, flags, i) ==> staying(w, flags, i) < staying(w, flags, j),
    decreases j - i,
{
    if i < j {
        lemma_staying_bound(w, flags, i, j - 1);
    }
}

/// Replaces chains of like edges by single edges, and drops the nodes between them.
///
/// Nodes with flags are never dropped from between edges. The nodes are looked at once, in their
/// order.
pub fn collapse_edges(graph: &mut Graph<NodePL, EdgePL>, node_flags: &mut Vec<u8>)
    requires
        old(graph).wf(),
    ensures
        final(graph).wf(),
        rebuilt(
            *old(graph),
            collapse_upto(
                work_of(old(graph).edges@),
                old(node_flags)@,
                old(graph).nodes@.len() as int,
            ),
            old(node_flags)@,
            *final(graph),
            final(node_flags)@,
        ),
{
    let n: usize = graph.nodes.len();
    let ghost w0 = work_of(graph.edges@);
    let ghost flags = node_flags@;
    let (mut edges, mut lists) = begin(graph);
    let mut node: usize = 0;
    while node < n
        invariant
            n == graph.nodes@.len(),
            *graph == *old(graph),
            node_flags@ == flags,
            node <= n,
            lists_ok(views(edges@), lists@, n as nat),
            views(edges@) == collapse_upto(w0, flags, node as int),
        decreases n - node,
    {
        let flag: u8 = if node < node_flags.len() { node_flags[node] } else { 0 };
        collapse_node(&mut edges, &mut lists, flag, node, Ghost(n as nat));
        node = node + 1;
    }
    let ghost w = views(edges@);
    let mut new_graph: Graph<NodePL, EdgePL> = Graph::new();
    let mut new_flags: Vec<u8> = Vec::new();
    let mut node_map: Vec<usize> = Vec::new();
    let mut i: usize = 0;
    while i < n
        invariant
            n == graph.nodes@.len(),
            *graph == *old(graph),
            node_flags@ == flags,
            i <= n,
            w == views(edges@),
            lists_ok(w, lists@, n as nat),
            new_graph.wf(),
            new_graph.edges@.len() == 0,
            new_graph.transit_lines@.len() == 0,
            new_graph.nodes@.len() == staying(w, flags, i as int),
            new_flags@.len() == staying(w, flags, i as int),
            node_map@.len() == i,
            forall|j: int| 0 <= j < i ==> #[trigger] node_map@[j] == staying(w, flags, j),
            forall|j: int|
                #![trigger stays(w, flags, j)]
                0 <= j < i && stays(w, flags, j) ==> {
                    let m = staying(w, flags, j) as int;
                    &&& m < new_graph.nodes@.len()
                    &&& new_graph.nodes@[m].payload == graph.nodes@[j].payload
                    &&& new_flags@[m] == flag_of(flags, j)
                },
        decreases n - i,
    {
        let flag: u8 = if i < node_flags.len() { node_flags[i] } else { 0 };
        assert(lists@[i as int]@ == touching(w, i));
        let inc = active_incident_edges(&lists[i], &edges, Ghost(i));
        node_map.push(new_graph.nodes.len());
        let ghost g0 = new_graph;
        let ghost f0 = new_flags@;
        if inc.len() > 0 || flag & NODE_FLAG_STATION != 0 {
            new_graph.add_node(graph.nodes[i].payload);
            new_flags.push(flag);
            assert(stays(w, flags, i as int));
        }
        proof {
            assert forall|j: int|
                #![trigger stays(w, flags, j)]
                0 <= j < i + 1 && stays(w, flags, j) implies {
                let m = staying(w, flags, j) as int;
                &&& m < new_graph.nodes@.len()
                &&& new_graph.nodes@[m].payload == graph.nodes@[j].payload
                &&& new_flags@[m] == flag_of(flags, j)
            } by {
                if j < i {
                    let m = staying(w, flags, j) as int;
                    if new_graph.nodes@.len() > g0.nodes@.len() {
                        assert(new_graph.nodes@.take(g0.nodes@.len() as int)[m] == new_graph.nodes@[m]);
                    }
                }
            }
        }
        i = i + 1;
    }
    let mut k: usize = 0;
    while k < edges.len()
        invariant
            n == graph.nodes@.len(),
            *graph == *old(graph),
            node_flags@ == flags,
            w == views(edges@),
            lists_ok(w, lists@, n as nat),
            k <= edges@.len(),
            node_map@.len() == n,
            forall|j: int| 0 <= j < n ==> #[trigger] node_map@[j] == staying(w, flags, j),
            new_graph.wf(),
            new_graph.transit_lines@.len() == 0,
            new_graph.nodes@.len() == staying(w, flags, n as int),
            new_flags@.len() == staying(w, flags, n as int),
            forall|j: int|
                #![trigger stays(w, flags, j)]
                0 <= j < n && stays(w, flags, j) ==> {
                    let m = staying(w, flags, j) as int;
                    &&& m < new_graph.nodes@.len()
                    &&& new_graph.nodes@[m].payload == graph.nodes@[j].payload
                    &&& new_flags@[m] == flag_of(flags, j)
                },
            new_graph.edges@.len() == in_use(w, k as int),
            forall|j: int|
                #![trigger w[j]]
                0 <= j < k && w[j].active ==> {
                    let m = in_use(w, j) as int;
                    &&& m < new_graph.edges@.len()
                    &&& new_graph.edges@[m].payload@ == w[j].payload
                    &&& new_graph.edges@[m].from == staying(w, flags, w[j].from as int)
                    &&& new_graph.edges@[m].to == staying(w, flags, w[j].to as int)
                },
        decreases edges@.len() - k,
    {
        assert(w[k as int] == edges@[k as int]@);
        let ghost g0 = new_graph;
        if edges[k].active {
            let a: usize = edges[k].from;
            let b: usize = edges[k].to;
            proof {
                assert(w[k as int].from < n && w[k as int].to < n);
                assert(edges.len() == edges@.len());
                lemma_used_stays(w, flags, k as int, a);
                lemma_used_stays(w, flags, k as int, b);
                lemma_staying_bound(w, flags, a as int, n as int);
                lemma_staying_bound(w, flags, b as int, n as int);
            }
            let payload = edges[k].payload.clone();
            new_graph.add_edge(node_map[a], node_map[b], payload);
        }
        proof {
            assert forall|j: int|
                #![trigger w[j]]
                0 <= j < k + 1 && w[j].active implies {
                let m = in_use(w, j) as int;
                &&& m < new_graph.edges@.len()
                &&& new_graph.edges@[m].payload@ == w[j].payload
                &&& new_graph.edges@[m].from == staying(w, flags, w[j].from as int)
                &&& new_graph.edges@[m].to == staying(w, flags, w[j].to as int)
            } by {
                if j < k {
                    let m = in_use(w, j) as int;
                    assert(g0.edges@[m] == new_graph.edges@[m]);
                }
            }
        }
        k = k + 1;
    }
    std::mem::swap(&mut new_graph.transit_lines, &mut graph.transit_lines);
    *graph = new_graph;
    *node_flags = new_flags;
}

/// The ends of an edge in use stay.
proof fn lemma_used_stays(w: Work, flags: Seq<u8>, k: int, node: NodeIndex)
    requires
        0 <= k < w.len(),
        w.len() <= usize::MAX,
        w[k].active,
        touches(w[k], node),
    ensures
        stays(w, flags, node as int),
{
    lemma_touching(w, node);
    lemma_only_active(w, touching(w, node));
    assert(touching(w, node).contains(k as usize));
    assert(incident(w, node).contains(k as usize));
}

// What collapsing keeps.

/// What the edges in use cost, among the first `k`.
pub open spec fn cost_upto(w: Work, k: int) -> nat
    decreases k,
{
    if k <= 0 {
        0
    } else {
        cost_upto(w, k - 1) + if w[k - 1].active {
            w[k - 1].payload.cost as nat
        } else {
            0
        }
    }
}

/// What the first `k` edges of a graph cost.
pub open spec fn total_cost(edges: Seq<Edge<EdgePL>>, k: int) -> nat
    decreases k,
{
    if k <= 0 {
        0
    } else {
        total_cost(edges, k - 1) + edges[k - 1].payload.cost as nat
    }
}

/// Whether the edges in use have a course.
spec fn drawn(w: Work) -> bool {
    forall|k: int|
        #![trigger w[k]]
        0 <= k < w.len() && w[k].active ==> w[k].payload.geometry.len() > 0
}

/// The edges that a joint merges, the one that the course begins with first.
pub open spec fn merged_edges(w: Work, node: NodeIndex) -> (WorkView, WorkView) {
    let a = w[incident(w, node)[0] as int];
    let b = w[incident(w, node)[1] as int];
    if a.payload.oneway != 0 && other_end(a, node) != a.from {
        (b, a)
    } else {
        (a, b)
    }
}

/// Whether the costs of the edges that are merged at a node can be added: both edges have a course, or
/// the second costs nothing, and the sum can be counted.
pub open spec fn adds_up(w: Work, flag: u8, node: NodeIndex) -> bool {
    is_joint(w, flag, node) ==> {
        let (first, second) = merged_edges(w, node);
        &&& second.payload.cost == 0 || (first.payload.geometry.len() > 0
            && second.payload.geometry.len() > 0)
        &&& first.payload.cost + second.payload.cost <= u32::MAX
    }
}

/// Whether the costs can be added wherever edges are merged, at the first `n` nodes.
pub open spec fn all_add_up(w: Work, flags: Seq<u8>, n: int) -> bool {
    forall|m: int|
        #![trigger flag_of(flags, m)]
        0 <= m < n ==> adds_up(collapse_upto(w, flags, m), flag_of(flags, m), m as usize)
}

proof fn lemma_cost_same(a: Work, b: Work, k: int)
    requires
        k <= a.len(),
        k <= b.len(),
        forall|i: int|
            #![trigger a[i]]
            0 <= i < k ==> a[i].active == b[i].active && a[i].payload.cost == b[i].payload.cost,
    ensures
        cost_upto(a, k) == cost_upto(b, k),
    decreases k,
{
    if k > 0 {
        lemma_cost_same(a, b, k - 1);
        assert(a[k - 1].active == b[k - 1].active);
    }
}

proof fn lemma_cost_retire(w: Work, i: int, k: int)
    requires
        0 <= i < w.len(),
        w[i].active,
        0 <= k <= w.len(),
    ensures
        cost_upto(w, k) == cost_upto(w.update(i, WorkView { active: false, ..w[i] }), k) + if i < k {
            w[i].payload.cost as nat
        } else {
            0
        },
    decreases k,
{
    let b = w.update(i, WorkView { active: false, ..w[i] });
    if k > 0 {
        lemma_cost_retire(w, i, k - 1);
        assert(k - 1 != i ==> b[k - 1] == w[k - 1]);
    }
}

/// The edges that a joint merges are two edges in use.
proof fn lemma_joint_edges(w: Work, flag: u8, node: NodeIndex)
    requires
        w.len() <= usize::MAX,
        is_joint(w, flag, node),
    ensures
        ({
            let inc = incident(w, node);
            &&& inc[0] < inc[1] < w.len()
            &&& w[inc[0] as int].active
            &&& w[inc[1] as int].active
            &&& touches(w[inc[0] as int], node)
            &&& touches(w[inc[1] as int], node)
        }),
{
    let inc = incident(w, node);
    let t = touching(w, node);
    lemma_touching(w, node);
    lemma_only_active(w, t);
    lemma_incident_ascends(w, node);
    assert(t.contains(inc[0]) && t.contains(inc[1]));
    let ka = choose|k: int| 0 <= k < t.len() && t[k] == inc[0];
    let kb = choose|k: int| 0 <= k < t.len() && t[k] == inc[1];
    assert(t[ka] < w.len() && t[kb] < w.len());
}

/// Merging two edges keeps what they cost together.
proof fn lemma_collapse_at_cost(w: Work, flag: u8, node: NodeIndex)
    requires
        w.len() <= usize::MAX,
        adds_up(w, flag, node),
    ensures
        ({
            let after = collapse_at(w, flag, node);
            &&& cost_upto(after, after.len() as int) == cost_upto(w, w.len() as int)
            &&& after.len() <= w.len() + 1
        }),
{
    if is_joint(w, flag, node) {
        lemma_joint_edges(w, flag, node);
        let inc = incident(w, node);
        let ea = inc[0] as int;
        let eb = inc[1] as int;
        let (first, second) = merged_edges(w, node);
        let from = other_end(first, node);
        let to = other_end(second, node);
        let m = merged(first, second, node, from, to);
        let w1 = w.update(ea, WorkView { active: false, ..w[ea] });
        let w2 = w1.update(eb, WorkView { active: false, ..w1[eb] });
        let new = WorkView { from, to, payload: m, active: true };
        let after = collapse_at(w, flag, node);
        assert(w1[eb] == w[eb]);
        assert(after =~= w2.push(new));
        assert(after[w.len() as int] == new);
        if first.payload.geometry.len() > 0 && second.payload.geometry.len() > 0 {
            assert(course(first, from, node).len() > 0 && course(second, node, to).len() > 0);
        }
        assert(m.cost == first.payload.cost + second.payload.cost);
        lemma_cost_retire(w, ea, w.len() as int);
        lemma_cost_retire(w1, eb, w.len() as int);
        lemma_cost_same(w2, after, w.len() as int);
    }
}

proof fn lemma_collapse_upto_cost(w: Work, flags: Seq<u8>, n: int)
    requires
        0 <= n,
        w.len() + n <= usize::MAX,
        all_add_up(w, flags, n),
    ensures
        ({
            let after = collapse_upto(w, flags, n);
            &&& cost_upto(after, after.len() as int) == cost_upto(w, w.len() as int)
            &&& after.len() <= w.len() + n
        }),
    decreases n,
{
    if n > 0 {
        lemma_collapse_upto_cost(w, flags, n - 1);
        let flag = flag_of(flags, n - 1);
        lemma_collapse_at_cost(collapse_upto(w, flags, n - 1), flag, (n - 1) as usize);
    }
}

/// The costs can be added wherever edges are merged, if every edge has a course and all costs together
/// can be counted.
proof fn lemma_small_costs_work(w: Work, flags: Seq<u8>, n: int)
    requires
        0 <= n,
        w.len() + n <= usize::MAX,
        drawn(w),
        cost_upto(w, w.len() as int) <= u32::MAX,
    ensures
        all_add_up(w, flags, n),
    decreases n,
{
    if n > 0 {
        lemma_small_costs_work(w, flags, n - 1);
        lemma_collapse_upto_cost(w, flags, n - 1);
        lemma_collapse_drawn(w, flags, n - 1);
        let b = collapse_upto(w, flags, n - 1);
        lemma_small_costs_joint(b, flag_of(flags, n - 1), (n - 1) as usize);
        assert forall|m: int| #![trigger flag_of(flags, m)] 0 <= m < n implies adds_up(
            collapse_upto(w, flags, m),
            flag_of(flags, m),
            m as usize,
        ) by {}
    }
}

proof fn lemma_small_costs_joint(w: Work, flag: u8, node: NodeIndex)
    requires
        w.len() <= usize::MAX,
        drawn(w),
        cost_upto(w, w.len() as int) <= u32::MAX,
    ensures
        adds_up(w, flag, node),
{
    if is_joint(w, flag, node) {
        lemma_joint_edges(w, flag, node);
        let ea = incident(w, node)[0] as int;
        let eb = incident(w, node)[1] as int;
        let b = w.update(ea, WorkView { active: false, ..w[ea] });
        assert(b[eb] == w[eb]);
        lemma_cost_retire(w, ea, w.len() as int);
        lemma_cost_retire(b, eb, w.len() as int);
    }
}

/// Edges that have a course are merged into edges that have one.
proof fn lemma_collapse_drawn(w: Work, flags: Seq<u8>, n: int)
    requires
        0 <= n,
        w.len() + n <= usize::MAX,
        drawn(w),
    ensures
        drawn(collapse_upto(w, flags, n)),
        collapse_upto(w, flags, n).len() <= w.len() + n,
    decreases n,
{
    if n > 0 {
        lemma_collapse_drawn(w, flags, n - 1);
        let before = collapse_upto(w, flags, n - 1);
        let flag = flag_of(flags, n - 1);
        let node = (n - 1) as usize;
        let after = collapse_at(before, flag, node);
        if is_joint(before, flag, node) {
            let inc = incident(before, node);
            lemma_joint_edges(before, flag, node);
            assert forall|k: int| #![trigger after[k]] 0 <= k < after.len() && after[k].active implies after[k].payload.geometry.len()
                > 0 by {
                if k < before.len() {
                    assert(after[k] == before[k]);
                } else {
                    assert(before[inc[0] as int].payload.geometry.len() > 0);
                    assert(before[inc[1] as int].payload.geometry.len() > 0);
                }
            }
        }
    }
}

proof fn lemma_rebuilt_cost(
    before: Graph<NodePL, EdgePL>,
    w: Work,
    flags: Seq<u8>,
    after: Graph<NodePL, EdgePL>,
    flags_after: Seq<u8>,
    k: int,
)
    requires
        rebuilt(before, w, flags, after, flags_after),
        0 <= k <= w.len(),
    ensures
        total_cost(after.edges@, in_use(w, k) as int) == cost_upto(w, k),
    decreases k,
{
    if k > 0 {
        lemma_rebuilt_cost(before, w, flags, after, flags_after, k - 1);
        let e = w[k - 1];
        if e.active {
            assert(after.edges@[in_use(w, k - 1) as int].payload@ == e.payload);
        }
    }
}

proof fn lemma_work_cost(edges: Seq<Edge<EdgePL>>, k: int)
    requires
        0 <= k <= edges.len(),
    ensures
        cost_upto(work_of(edges), k) == total_cost(edges, k),
    decreases k,
{
    if k > 0 {
        lemma_work_cost(edges, k - 1);
        assert(work_of(edges)[k - 1].payload == edges[k - 1].payload@);
    }
}

/// Collapsing keeps what the edges of a graph cost together, if the costs can be added wherever edges
/// are merged.
pub proof fn lemma_collapse_keeps_cost(
    before: Graph<NodePL, EdgePL>,
    flags: Seq<u8>,
    after: Graph<NodePL, EdgePL>,
    flags_after: Seq<u8>,
)
    requires
        rebuilt(
            before,
            collapse_upto(work_of(before.edges@), flags, before.nodes@.len() as int),
            flags,
            after,
            flags_after,
        ),
        before.edges@.len() + before.nodes@.len() <= usize::MAX,
        all_add_up(work_of(before.edges@), flags, before.nodes@.len() as int),
    ensures
        total_cost(after.edges@, after.edges@.len() as int) == total_cost(
            before.edges@,
            before.edges@.len() as int,
        ),
{
    let n = before.nodes@.len() as int;
    let w0 = work_of(before.edges@);
    let w = collapse_upto(w0, flags, n);
    lemma_collapse_upto_cost(w0, flags, n);
    lemma_rebuilt_cost(before, w, flags, after, flags_after, w.len() as int);
    lemma_work_cost(before.edges@, before.edges@.len() as int);
}

/// The costs of a graph can be added wherever edges are merged, if every edge has a course and what all
/// edges cost together can be counted.
pub proof fn lemma_small_costs_add_up(graph: Graph<NodePL, EdgePL>, flags: Seq<u8>)
    requires
        graph.edges@.len() + graph.nodes@.len() <= usize::MAX,
        forall|k: int|
            #![trigger graph.edges@[k]]
            0 <= k < graph.edges@.len() ==> graph.edges@[k].payload.geometry@.len() > 0,
        total_cost(graph.edges@, graph.edges@.len() as int) <= u32::MAX,
    ensures
        all_add_up(work_of(graph.edges@), flags, graph.nodes@.len() as int),
{
    let w = work_of(graph.edges@);
    assert forall|k: int| #![trigger w[k]] 0 <= k < w.len() && w[k].active implies w[k].payload.geometry.len()
        > 0 by {
        assert(graph.edges@[k].payload.geometry@.len() > 0);
    }
    lemma_work_cost(graph.edges@, graph.edges@.len() as int);
    lemma_small_costs_work(w, flags, graph.nodes@.len() as int);
}

/// How many edges in use touch a node.
pub open spec fn degree(w: Work, node: NodeIndex) -> nat
    decreases w.len(),
{
    if w.len() == 0 {
        0
    } else {
        degree(w.drop_last(), node) + if w.last().active && touches(w.last(), node) {
            1nat
        } else {
            0
        }
    }
}

proof fn lemma_degree_push(w: Work, e: WorkView, node: NodeIndex)
    ensures
        degree(w.push(e), node) == degree(w, node) + if e.active && touches(e, node) {
            1nat
        } else {
            0
        },
{
    assert(w.push(e).drop_last() =~= w);
}

proof fn lemma_degree_retire(w: Work, k: int, node: NodeIndex)
    requires
        0 <= k < w.len(),
        w[k].active,
    ensures
        degree(w.update(k, WorkView { active: false, ..w[k] }), node) == degree(w, node)
            - if touches(w[k], node) {
            1int
        } else {
            0
        },
    decreases w.len(),
{
    let u = w.update(k, WorkView { active: false, ..w[k] });
    if k == w.len() - 1 {
        assert(u.drop_last() =~= w.drop_last());
    } else {
        let p = w.drop_last();
        lemma_degree_retire(p, k, node);
        assert(u.drop_last() =~= p.update(k, WorkView { active: false, ..p[k] }));
        assert(u.last() == w.last());
    }
}

/// Looking at a node leaves the degree of every other node as it is.
pub proof fn lemma_collapse_keeps_degree(w: Work, flag: u8, node: NodeIndex, v: NodeIndex)
    requires
        w.len() <= usize::MAX,
        v != node,
    ensures
        degree(collapse_at(w, flag, node), v) == degree(w, v),
        collapse_at(w, flag, node).len() <= w.len() + 1,
{
    if is_joint(w, flag, node) {
        let inc = incident(w, node);
        let ea = inc[0] as int;
        let eb = inc[1] as int;
        lemma_incident_ascends(w, node);
        assert(ea < eb);
        lemma_touching(w, node);
        lemma_only_active(w, touching(w, node));
        assert(touching(w, node).contains(inc[0]) && w[ea].active);
        assert(touching(w, node).contains(inc[1]) && w[eb].active);
        let ia = choose|i: int| 0 <= i < touching(w, node).len() && touching(w, node)[i] == inc[0];
        let ib = choose|i: int| 0 <= i < touching(w, node).len() && touching(w, node)[i] == inc[1];
        assert(touches(w[touching(w, node)[ia] as int], node));
        assert(touches(w[touching(w, node)[ib] as int], node));
        let w1 = w.update(ea, WorkView { active: false, ..w[ea] });
        lemma_degree_retire(w, ea, v);
        assert(w1[eb] == w[eb]);
        lemma_degree_retire(w1, eb, v);
        let w2 = w1.update(eb, WorkView { active: false, ..w[eb] });
        let last = collapse_at(w, flag, node).last();
        assert(collapse_at(w, flag, node) =~= w2.push(last));
        lemma_degree_push(w2, last, v);
    }
}

/// Collapsing a graph leaves the degree of every node with a flag as it is.
pub proof fn lemma_flagged_keeps_degree(w: Work, flags: Seq<u8>, n: int, v: NodeIndex)
    requires
        0 <= n,
        w.len() + n <= usize::MAX,
        flag_of(flags, v as int) != 0,
    ensures
        degree(collapse_upto(w, flags, n), v) == degree(w, v),
        collapse_upto(w, flags, n).len() <= w.len() + n,
    decreases n,
{
    if n > 0 {
        let p = collapse_upto(w, flags, n - 1);
        lemma_flagged_keeps_degree(w, flags, n - 1, v);
        if n - 1 != v {
            lemma_collapse_keeps_degree(p, flag_of(flags, n - 1), (n - 1) as usize, v);
        }
    }
}

// The courses of collapsed edges.

/// Whether the course of every edge in use begins where the edge begins and ends where it ends, the nodes
/// standing at these points.
pub open spec fn anchored(w: Work, points: Seq<Point>) -> bool {
    forall|k: int|
        #![trigger w[k]]
        0 <= k < w.len() && w[k].active ==> {
            let g = w[k].payload.geometry;
            &&& w[k].from < points.len()
            &&& w[k].to < points.len()
            &&& g.len() > 0
            &&& g[0] == points[w[k].from as int]
            &&& g[g.len() - 1] == points[w[k].to as int]
        }
}

/// Where the nodes of a graph stand.
pub open spec fn places_of(g: Graph<NodePL, EdgePL>) -> Seq<Point> {
    g.nodes@.map_values(|n: Node<NodePL>| n.payload.point)
}

/// The length of a course, given the distance of any two points.
pub open spec fn course_length(g: Seq<Point>, d: spec_fn(Point, Point) -> nat) -> nat
    decreases g.len(),
{
    if g.len() < 2 {
        0
    } else {
        course_length(g.drop_last(), d) + d(g[g.len() - 2], g[g.len() - 1])
    }
}

/// The lengths of the courses of the edges in use, among the first `k`.
pub open spec fn length_upto(w: Work, d: spec_fn(Point, Point) -> nat, k: int) -> nat
    decreases k,
{
    if k <= 0 {
        0
    } else {
        length_upto(w, d, k - 1) + if w[k - 1].active {
            course_length(w[k - 1].payload.geometry, d)
        } else {
            0
        }
    }
}

proof fn lemma_length_joined(a: Seq<Point>, b: Seq<Point>, d: spec_fn(Point, Point) -> nat)
    requires
        a.len() > 0,
        b.len() > 0,
        a[a.len() - 1] == b[0],
    ensures
        course_length(a + b.drop_first(), d) == course_length(a, d) + course_length(b, d),
    decreases b.len(),
{
    let c = a + b.drop_first();
    if b.len() == 1 {
        assert(c =~= a);
    } else {
        let p = b.drop_last();
        lemma_length_joined(a, p, d);
        assert(c.drop_last() =~= a + p.drop_first());
        assert(c[c.len() - 1] == b[b.len() - 1]);
        if b.len() == 2 {
            assert(c[c.len() - 2] == a[a.len() - 1]);
        } else {
            assert(c[c.len() - 2] == b[b.len() - 2]);
        }
    }
}

proof fn lemma_length_first(g: Seq<Point>, d: spec_fn(Point, Point) -> nat)
    requires
        g.len() >= 2,
    ensures
        course_length(g, d) == d(g[0], g[1]) + course_length(g.drop_first(), d),
{
    let a = g.take(2);
    let b = g.drop_first();
    assert(a + b.drop_first() =~= g);
    lemma_length_joined(a, b, d);
    assert(a.drop_last().len() == 1);
    assert(course_length(a.drop_last(), d) == 0);
}

proof fn lemma_length_reversed(g: Seq<Point>, d: spec_fn(Point, Point) -> nat)
    requires
        forall|p: Point, q: Point| #[trigger] d(p, q) == d(q, p),
    ensures
        course_length(g.reverse(), d) == course_length(g, d),
    decreases g.len(),
{
    if g.len() >= 2 {
        let p = g.drop_last();
        let r = g.reverse();
        lemma_length_reversed(p, d);
        lemma_length_first(r, d);
        assert(r.drop_first() =~= p.reverse());
        assert(r[0] == g[g.len() - 1] && r[1] == g[g.len() - 2]);
        assert(d(r[0], r[1]) == d(r[1], r[0]));
    }
}

proof fn lemma_length_same(a: Work, b: Work, d: spec_fn(Point, Point) -> nat, k: int)
    requires
        k <= a.len(),
        k <= b.len(),
        forall|i: int|
            #![trigger a[i]]
            0 <= i < k ==> a[i].active == b[i].active && a[i].payload == b[i].payload,
    ensures
        length_upto(a, d, k) == length_upto(b, d, k),
    decreases k,
{
    if k > 0 {
        lemma_length_same(a, b, d, k - 1);
        assert(a[k - 1].active == b[k - 1].active);
    }
}

proof fn lemma_length_retire(w: Work, d: spec_fn(Point, Point) -> nat, i: int, k: int)
    requires
        0 <= i < w.len(),
        w[i].active,
        0 <= k <= w.len(),
    ensures
        length_upto(w, d, k) == length_upto(w.update(i, WorkView { active: false, ..w[i] }), d, k)
            + if i < k {
            course_length(w[i].payload.geometry, d)
        } else {
            0
        },
    decreases k,
{
    let b = w.update(i, WorkView { active: false, ..w[i] });
    if k > 0 {
        lemma_length_retire(w, d, i, k - 1);
        assert(k - 1 != i ==> b[k - 1] == w[k - 1]);
    }
}

/// A course from one end of an edge to the other begins and ends there.
proof fn lemma_course_anchored(
    e: WorkView,
    from: NodeIndex,
    to: NodeIndex,
    points: Seq<Point>,
    d: spec_fn(Point, Point) -> nat,
)
    requires
        (e.from == from && e.to == to) || (e.from == to && e.to == from),
        e.payload.geometry.len() > 0,
        e.payload.geometry[0] == points[e.from as int],
        e.payload.geometry[e.payload.geometry.len() - 1] == points[e.to as int],
        forall|p: Point, q: Point| #[trigger] d(p, q) == d(q, p),
    ensures
        course(e, from, to).len() > 0,
        course(e, from, to)[0] == points[from as int],
        course(e, from, to)[course(e, from, to).len() - 1] == points[to as int],
        course_length(course(e, from, to), d) == course_length(e.payload.geometry, d),
        forall|p: Point| #[trigger] course(e, from, to).contains(p) <==> e.payload.geometry.contains(p),
{
    let g = e.payload.geometry;
    let c = course(e, from, to);
    lemma_length_reversed(g, d);
    assert forall|p: Point| #[trigger] c.contains(p) <==> g.contains(p) by {
        if g.contains(p) {
            let i = choose|i: int| 0 <= i < g.len() && g[i] == p;
            assert(g.reverse()[g.len() - 1 - i] == p);
        }
        if c.contains(p) && c == g.reverse() {
            let i = choose|i: int| 0 <= i < c.len() && c[i] == p;
            assert(g[g.len() - 1 - i] == p);
        }
    }
}

/// Whether one of the edges in use has a point on its course.
pub open spec fn passes_point(w: Work, p: Point) -> bool {
    exists|k: int| 0 <= k < w.len() && #[trigger] w[k].active && w[k].payload.geometry.contains(p)
}

/// Merging the edges at a joint keeps courses anchored, their length, and the points they pass.
proof fn lemma_collapse_at_course(
    w: Work,
    flag: u8,
    node: NodeIndex,
    points: Seq<Point>,
    d: spec_fn(Point, Point) -> nat,
)
    requires
        w.len() <= usize::MAX,
        anchored(w, points),
        forall|p: Point, q: Point| #[trigger] d(p, q) == d(q, p),
    ensures
        ({
            let after = collapse_at(w, flag, node);
            &&& anchored(after, points)
            &&& length_upto(after, d, after.len() as int) == length_upto(w, d, w.len() as int)
            &&& after.len() <= w.len() + 1
            &&& forall|p: Point| #[trigger] passes_point(after, p) <==> passes_point(w, p)
        }),
{
    if is_joint(w, flag, node) {
        lemma_joint_edges(w, flag, node);
        let inc = incident(w, node);
        let ea = inc[0] as int;
        let eb = inc[1] as int;
        let (first, second) = merged_edges(w, node);
        let from = other_end(first, node);
        let to = other_end(second, node);
        let m = merged(first, second, node, from, to);
        let w1 = w.update(ea, WorkView { active: false, ..w[ea] });
        let w2 = w1.update(eb, WorkView { active: false, ..w1[eb] });
        let new = WorkView { from, to, payload: m, active: true };
        let after = collapse_at(w, flag, node);
        assert(w1[eb] == w[eb]);
        assert(after =~= w2.push(new));
        assert(after[w.len() as int] == new);
        let a = course(first, from, node);
        let b = course(second, node, to);
        lemma_course_anchored(first, from, node, points, d);
        lemma_course_anchored(second, node, to, points, d);
        assert(a.last() == b.first());
        lemma_length_joined(a, b, d);
        let g = m.geometry;
        assert(g == a + b.drop_first());
        assert(g[0] == a[0]);
        assert(g[g.len() - 1] == points[to as int]) by {
            if b.len() > 1 {
                assert(g[g.len() - 1] == b[b.len() - 1]);
            } else {
                assert(g[g.len() - 1] == a[a.len() - 1]);
            }
        }
        lemma_length_retire(w, d, ea, w.len() as int);
        lemma_length_retire(w1, d, eb, w.len() as int);
        lemma_length_same(w2, after, d, w.len() as int);
        assert forall|k: int| #![trigger after[k]] 0 <= k < after.len() && after[k].active implies {
            let g = after[k].payload.geometry;
            &&& after[k].from < points.len()
            &&& after[k].to < points.len()
            &&& g.len() > 0
            &&& g[0] == points[after[k].from as int]
            &&& g[g.len() - 1] == points[after[k].to as int]
        } by {
            if k < w.len() {
                assert(after[k] == w[k]);
            }
        }
        assert forall|p: Point| #[trigger] passes_point(after, p) <==> passes_point(w, p) by {
            lemma_joined_points(a, b, p);
            if passes_point(w, p) {
                let k = choose|k: int|
                    0 <= k < w.len() && #[trigger] w[k].active && w[k].payload.geometry.contains(p);
                if k == ea || k == eb {
                    assert(a.contains(p) || b.contains(p));
                    assert(after[w.len() as int].active && new.payload.geometry.contains(p));
                } else {
                    assert(after[k] == w[k]);
                    assert(after[k].active);
                }
            }
            if passes_point(after, p) {
                let k = choose|k: int|
                    0 <= k < after.len() && #[trigger] after[k].active
                        && after[k].payload.geometry.contains(p);
                if k < w.len() {
                    assert(after[k] == w[k]);
                    assert(w[k].active);
                } else {
                    assert(w[ea].active && w[eb].active);
                    assert(a.contains(p) || b.contains(p));
                    assert(w[ea].payload.geometry.contains(p) || w[eb].payload.geometry.contains(p));
                }
            }
        }
    }
}

proof fn lemma_joined_points(a: Seq<Point>, b: Seq<Point>, p: Point)
    requires
        a.len() > 0,
        b.len() > 0,
        a[a.len() - 1] == b[0],
    ensures
        (a + b.drop_first()).contains(p) <==> a.contains(p) || b.contains(p),
{
    let g = a + b.drop_first();
    if a.contains(p) {
        let i = choose|i: int| 0 <= i < a.len() && a[i] == p;
        assert(g[i] == p);
    }
    if b.contains(p) {
        let i = choose|i: int| 0 <= i < b.len() && b[i] == p;
        if i == 0 {
            assert(g[a.len() - 1] == p);
        } else {
            assert(g[a.len() - 1 + i] == p);
        }
    }
    if g.contains(p) {
        let i = choose|i: int| 0 <= i < g.len() && g[i] == p;
        if i < a.len() {
            assert(a[i] == p);
        } else {
            assert(b[i - a.len() + 1] == p);
        }
    }
}

proof fn lemma_collapse_upto_course(
    w: Work,
    flags: Seq<u8>,
    n: int,
    points: Seq<Point>,
    d: spec_fn(Point, Point) -> nat,
)
    requires
        0 <= n,
        w.len() + n <= usize::MAX,
        anchored(w, points),
        forall|p: Point, q: Point| #[trigger] d(p, q) == d(q, p),
    ensures
        ({
            let after = collapse_upto(w, flags, n);
            &&& anchored(after, points)
            &&& length_upto(after, d, after.len() as int) == length_upto(w, d, w.len() as int)
            &&& after.len() <= w.len() + n
            &&& forall|p: Point| #[trigger] passes_point(after, p) <==> passes_point(w, p)
        }),
    decreases n,
{
    if n > 0 {
        lemma_collapse_upto_course(w, flags, n - 1, points, d);
        let flag = flag_of(flags, n - 1);
        lemma_collapse_at_course(collapse_upto(w, flags, n - 1), flag, (n - 1) as usize, points, d);
    }
}

proof fn lemma_rebuilt_length(
    before: Graph<NodePL, EdgePL>,
    w: Work,
    flags: Seq<u8>,
    after: Graph<NodePL, EdgePL>,
    flags_after: Seq<u8>,
    d: spec_fn(Point, Point) -> nat,
    k: int,
)
    requires
        rebuilt(before, w, flags, after, flags_after),
        0 <= k <= w.len(),
        in_use(w, k) <= after.edges@.len(),
    ensures
        length_upto(work_of(after.edges@), d, in_use(w, k) as int) == length_upto(w, d, k),
    decreases k,
{
    if k > 0 {
        lemma_rebuilt_length(before, w, flags, after, flags_after, d, k - 1);
        let e = w[k - 1];
        if e.active {
            assert(after.edges@[in_use(w, k - 1) as int].payload@ == e.payload);
            assert(work_of(after.edges@)[in_use(w, k - 1) as int].payload == e.payload);
        }
    }
}

/// The edge of a rebuilt graph at a position, among those in use.
proof fn lemma_in_use_at(w: Work, n: int, j: int) -> (k: int)
    requires
        0 <= n <= w.len(),
        0 <= j < in_use(w, n),
    ensures
        0 <= k < n,
        w[k].active,
        in_use(w, k) == j,
    decreases n,
{
    if j < in_use(w, n - 1) {
        lemma_in_use_at(w, n - 1, j)
    } else {
        n - 1
    }
}

proof fn lemma_staying_below(w: Work, flags: Seq<u8>, i: int, n: int)
    requires
        0 <= i < n,
        stays(w, flags, i),
    ensures
        staying(w, flags, i) < staying(w, flags, n),
    decreases n,
{
    if i < n - 1 {
        lemma_staying_below(w, flags, i, n - 1);
    }
}

/// If the course of every edge of a graph begins where the edge begins and ends where it ends, so does that
/// of every edge after collapsing. The courses together keep their length, however distances are measured,
/// as long as there and back are equally far, and they pass the same points.
pub proof fn lemma_collapse_keeps_courses(
    before: Graph<NodePL, EdgePL>,
    flags: Seq<u8>,
    after: Graph<NodePL, EdgePL>,
    flags_after: Seq<u8>,
    d: spec_fn(Point, Point) -> nat,
)
    requires
        rebuilt(
            before,
            collapse_upto(work_of(before.edges@), flags, before.nodes@.len() as int),
            flags,
            after,
            flags_after,
        ),
        before.edges@.len() + before.nodes@.len() <= usize::MAX,
        anchored(work_of(before.edges@), places_of(before)),
        forall|p: Point, q: Point| #[trigger] d(p, q) == d(q, p),
    ensures
        anchored(work_of(after.edges@), places_of(after)),
        length_upto(work_of(after.edges@), d, after.edges@.len() as int) == length_upto(
            work_of(before.edges@),
            d,
            before.edges@.len() as int,
        ),
        forall|p: Point| #[trigger]
            passes_point(work_of(after.edges@), p) <==> passes_point(work_of(before.edges@), p),
{
    let n = before.nodes@.len() as int;
    let w0 = work_of(before.edges@);
    let w = collapse_upto(w0, flags, n);
    let a = work_of(after.edges@);
    let points = places_of(before);
    lemma_collapse_upto_course(w0, flags, n, points, d);
    lemma_rebuilt_length(before, w, flags, after, flags_after, d, w.len() as int);
    assert forall|j: int| #![trigger a[j]] 0 <= j < a.len() && a[j].active implies {
        let g = a[j].payload.geometry;
        &&& a[j].from < places_of(after).len()
        &&& a[j].to < places_of(after).len()
        &&& g.len() > 0
        &&& g[0] == places_of(after)[a[j].from as int]
        &&& g[g.len() - 1] == places_of(after)[a[j].to as int]
    } by {
        let k = lemma_in_use_at(w, w.len() as int, j);
        lemma_used_stays(w, flags, k, w[k].from);
        lemma_used_stays(w, flags, k, w[k].to);
        lemma_staying_below(w, flags, w[k].from as int, n);
        lemma_staying_below(w, flags, w[k].to as int, n);
    }
    assert forall|p: Point| #[trigger] passes_point(a, p) <==> passes_point(w0, p) by {
        assert(passes_point(w, p) <==> passes_point(w0, p));
        if passes_point(a, p) {
            let j = choose|j: int|
                0 <= j < a.len() && #[trigger] a[j].active && a[j].payload.geometry.contains(p);
            let k = lemma_in_use_at(w, w.len() as int, j);
            assert(w[k].active && w[k].payload.geometry.contains(p));
        }
        if passes_point(w, p) {
            let k = choose|k: int|
                0 <= k < w.len() && #[trigger] w[k].active && w[k].payload.geometry.contains(p);
            lemma_in_use_below(w, k, w.len() as int);
            assert(a[in_use(w, k) as int].active);
        }
    }
}

proof fn lemma_in_use_below(w: Work, k: int, n: int)
    requires
        0 <= k < n <= w.len(),
        w[k].active,
    ensures
        in_use(w, k) < in_use(w, n),
    decreases n,
{
    if k < n - 1 {
        lemma_in_use_below(w, k, n - 1);
    }
}

// Directions of collapsed edges.

/// Whether an edge leads from one node to another, the way it may be used: a one-way edge from where it
/// begins to where it ends, any other both ways.
pub open spec fn usable(e: WorkView, a: NodeIndex, b: NodeIndex) -> bool {
    &&& e.active
    &&& (e.from == a && e.to == b) || (e.payload.oneway == 0 && e.from == b && e.to == a)
}

/// Whether `n` edges lead from one node to another, one after the other, the way they may be used.
pub open spec fn gets_to(w: Work, a: NodeIndex, b: NodeIndex, n: nat) -> bool
    decreases n,
{
    if n == 0 {
        a == b
    } else {
        exists|c: NodeIndex, k: int|
            0 <= k < w.len() && #[trigger] usable(w[k], c, b) && gets_to(w, a, c, (n - 1) as nat)
    }
}

proof fn lemma_gets_further(w: Work, a: NodeIndex, b: NodeIndex, c: NodeIndex, m: nat, n: nat)
    requires
        gets_to(w, a, b, m),
        gets_to(w, b, c, n),
    ensures
        gets_to(w, a, c, m + n),
    decreases n,
{
    if n > 0 {
        let (x, k) = choose|x: NodeIndex, k: int|
            0 <= k < w.len() && #[trigger] usable(w[k], x, c) && gets_to(w, b, x, (n - 1) as nat);
        lemma_gets_further(w, a, b, x, m, (n - 1) as nat);
        assert((m + n - 1) as nat == m + (n - 1) as nat);
        assert(usable(w[k], x, c) && gets_to(w, a, x, (m + n - 1) as nat));
    }
}

/// Whether no edge in use ends where it begins.
pub open spec fn loopless(w: Work) -> bool {
    forall|k: int| #![trigger w[k]] 0 <= k < w.len() && w[k].active ==> w[k].from != w[k].to
}

proof fn lemma_loopless(w: Work, flags: Seq<u8>, k: int)
    requires
        0 <= k,
        w.len() + k <= usize::MAX,
        loopless(w),
    ensures
        loopless(collapse_upto(w, flags, k)),
        collapse_upto(w, flags, k).len() <= w.len() + k,
    decreases k,
{
    if k > 0 {
        lemma_loopless(w, flags, k - 1);
        let p = collapse_upto(w, flags, k - 1);
        let flag = flag_of(flags, k - 1);
        if is_joint(p, flag, (k - 1) as usize) {
            lemma_joint_edges(p, flag, (k - 1) as usize);
            let after = collapse_upto(w, flags, k);
            assert forall|i: int| #![trigger after[i]] 0 <= i < after.len() && after[i].active implies after[i].from
                != after[i].to by {
                if i < p.len() {
                    assert(after[i] == p[i]);
                }
            }
        }
    }
}

/// Where an edge leads after a joint has been collapsed, edges led before.
proof fn lemma_joint_leads(w: Work, flag: u8, node: NodeIndex, k: int, a: NodeIndex, b: NodeIndex) -> (n:
    nat)
    requires
        w.len() <= usize::MAX,
        loopless(w),
        0 <= k < collapse_at(w, flag, node).len(),
        usable(collapse_at(w, flag, node)[k], a, b),
    ensures
        gets_to(w, a, b, n),
{
    let after = collapse_at(w, flag, node);
    reveal_with_fuel(gets_to, 3);
    if k < w.len() {
        if is_joint(w, flag, node) {
            lemma_joint_edges(w, flag, node);
        }
        assert(after[k] == w[k]);
        assert(usable(w[k], a, b) && gets_to(w, a, a, 0));
        1
    } else {
        lemma_joint_edges(w, flag, node);
        let inc = incident(w, node);
        let ea = inc[0] as int;
        let eb = inc[1] as int;
        let (first, second) = merged_edges(w, node);
        let x = other_end(first, node);
        let y = other_end(second, node);
        let i = if first == w[ea] && second == w[eb] {
            ea
        } else {
            eb
        };
        let j = if i == ea {
            eb
        } else {
            ea
        };
        assert(first == w[i] && second == w[j]);
        assert(after[k].payload.oneway == first.payload.oneway);
        if a == x && b == y {
            assert(usable(w[i], x, node) && gets_to(w, x, x, 0));
            assert(usable(w[j], node, y) && gets_to(w, x, node, 1));
        } else {
            assert(usable(w[j], y, node) && gets_to(w, y, y, 0));
            assert(usable(w[i], node, x) && gets_to(w, y, node, 1));
        }
        2
    }
}

proof fn lemma_joint_chain(w: Work, flag: u8, node: NodeIndex, a: NodeIndex, b: NodeIndex, n: nat) -> (m:
    nat)
    requires
        w.len() <= usize::MAX,
        loopless(w),
        gets_to(collapse_at(w, flag, node), a, b, n),
    ensures
        gets_to(w, a, b, m),
    decreases n,
{
    let after = collapse_at(w, flag, node);
    if n == 0 {
        assert(gets_to(w, a, b, 0));
        0
    } else {
        let (c, k) = choose|c: NodeIndex, k: int|
            0 <= k < after.len() && #[trigger] usable(after[k], c, b) && gets_to(
                after,
                a,
                c,
                (n - 1) as nat,
            );
        let x = lemma_joint_chain(w, flag, node, a, c, (n - 1) as nat);
        let y = lemma_joint_leads(w, flag, node, k, c, b);
        lemma_gets_further(w, a, c, b, x, y);
        x + y
    }
}

/// Collapsing opens no way: where edges lead after it, the way they may be used, edges led before, if no
/// edge ends where it begins.
pub proof fn lemma_collapse_keeps_directions(
    w: Work,
    flags: Seq<u8>,
    k: int,
    a: NodeIndex,
    b: NodeIndex,
    n: nat,
) -> (m: nat)
    requires
        0 <= k,
        w.len() + k <= usize::MAX,
        loopless(w),
        gets_to(collapse_upto(w, flags, k), a, b, n),
    ensures
        gets_to(w, a, b, m),
    decreases k,
{
    if k == 0 {
        n
    } else {
        lemma_loopless(w, flags, k - 1);
        let flag = flag_of(flags, k - 1);
        let x = lemma_joint_chain(collapse_upto(w, flags, k - 1), flag, (k - 1) as usize, a, b, n);
        lemma_collapse_keeps_directions(w, flags, k - 1, a, b, x)
    }
}

// Opposite edges.

/// Whether an edge leads from one node to another.
pub open spec fn leads(w: Work, from: NodeIndex, to: NodeIndex) -> bool {
    exists|k: int| 0 <= k < w.len() && (#[trigger] w[k]).from == from && w[k].to == to
}

/// Whether an edge leads back from `to` to `from`.
pub open spec fn has_opposite(w: Work, from: NodeIndex, to: NodeIndex) -> bool {
    leads(w, to, from)
}

/// The opposite of an edge.
pub open spec fn opposite(e: WorkView) -> WorkView {
    WorkView {
        from: e.to,
        to: e.from,
        payload: crate::graph::reversed_edge(e.payload),
        active: e.active,
    }
}

/// The edges once the first `k` of them have got the opposites that were missing.
pub open spec fn with_opposites(w: Work, k: int) -> Work
    decreases k,
{
    if k <= 0 {
        w
    } else {
        let r = with_opposites(w, k - 1);
        if has_opposite(r, w[k - 1].from, w[k - 1].to) {
            r
        } else {
            r.push(opposite(w[k - 1]))
        }
    }
}

/// The edges themselves stay where they are.
pub(crate) proof fn lemma_with_opposites_prefix(w: Work, k: int)
    requires
        0 <= k <= w.len(),
    ensures
        with_opposites(w, k).len() >= w.len(),
        forall|i: int| 0 <= i < w.len() ==> #[trigger] with_opposites(w, k)[i] == w[i],
    decreases k,
{
    if k > 0 {
        lemma_with_opposites_prefix(w, k - 1);
    }
}

/// In the end every edge has an opposite.
pub proof fn lemma_every_edge_has_opposite(w: Work, k: int)
    requires
        0 <= k <= w.len(),
    ensures
        forall|i: int|
            #![trigger with_opposites(w, k)[i]]
            (0 <= i < k || w.len() <= i < with_opposites(w, k).len()) ==> has_opposite(
                with_opposites(w, k),
                with_opposites(w, k)[i].from,
                with_opposites(w, k)[i].to,
            ),
    decreases k,
{
    lemma_with_opposites_prefix(w, k);
    if k > 0 {
        lemma_every_edge_has_opposite(w, k - 1);
        lemma_with_opposites_prefix(w, k - 1);
        let a = with_opposites(w, k - 1);
        let b = with_opposites(w, k);
        assert forall|i: int|
            #![trigger b[i]]
            (0 <= i < k || w.len() <= i < b.len()) implies has_opposite(b, b[i].from, b[i].to) by {
            if i == a.len() {
                // The edge that was added is the opposite of the one it was added for.
                assert(b[k - 1] == w[k - 1]);
                assert(b[k - 1].from == b[i].to);
            } else if i == k - 1 {
                assert(a[k - 1] == w[k - 1]);
                if has_opposite(a, w[k - 1].from, w[k - 1].to) {
                } else {
                    assert(b[a.len() as int].from == b[i].to);
                }
            } else {
                assert(a[i] == b[i]);
                assert(has_opposite(a, a[i].from, a[i].to));
                let m = choose|m: int|
                    0 <= m < a.len() && (#[trigger] a[m]).from == a[i].to && a[m].to == a[i].from;
                assert(b[m] == a[m]);
            }
        }
    }
}

/// Where every edge has an opposite, none is added.
pub proof fn lemma_opposites_complete(w: Work, k: int)
    requires
        0 <= k <= w.len(),
        forall|i: int|
            0 <= i < w.len() ==> has_opposite(w, (#[trigger] w[i]).from, w[i].to),
    ensures
        with_opposites(w, k) == w,
    decreases k,
{
    if k > 0 {
        lemma_opposites_complete(w, k - 1);
        assert(has_opposite(w, w[k - 1].from, w[k - 1].to));
    }
}

/// Whether the edges of a graph have changed, and nothing else of it.
pub open spec fn same_but_edges(a: Graph<NodePL, EdgePL>, b: Graph<NodePL, EdgePL>) -> bool {
    &&& a.transit_lines@ == b.transit_lines@
    &&& a.nodes@.len() == b.nodes@.len()
    &&& forall|i: int|
        #![trigger b.nodes@[i]]
        0 <= i < a.nodes@.len() ==> b.nodes@[i].payload == a.nodes@[i].payload
}

/// Whether an edge leads from one node to another.
pub fn directed_edge_exists(
    graph: &Graph<NodePL, EdgePL>,
    from: NodeIndex,
    to: NodeIndex,
) -> (r: bool)
    requires
        graph.wf(),
        from < graph.nodes@.len(),
    ensures
        r == leads(work_of(graph.edges@), from, to),
{
    let ghost w = work_of(graph.edges@);
    let list = &graph.nodes[from].out_edges;
    let mut i: usize = 0;
    while i < list.len()
        invariant
            graph.wf(),
            from < graph.nodes@.len(),
            w == work_of(graph.edges@),
            *list == graph.nodes@[from as int].out_edges,
            i <= list@.len(),
            forall|m: int| 0 <= m < i ==> graph.edges@[(#[trigger] list@[m]) as int].to != to,
        decreases list@.len() - i,
    {
        let k: usize = list[i];
        assert(graph.nodes@[from as int].out_edges@[i as int] == k);
        if graph.edges[k].to == to {
            assert(w[k as int].from == from && w[k as int].to == to);
            return true;
        }
        i = i + 1;
    }
    proof {
        if leads(w, from, to) {
            let k = choose|k: int|
                0 <= k < w.len() && (#[trigger] w[k]).from == from && w[k].to == to;
            assert(graph.edges@[k].from == from);
            assert(list@.contains(k as usize));
            let m = choose|m: int| 0 <= m < list@.len() && list@[m] == k as usize;
            assert(list@[m] == k as usize);
            assert(graph.edges.len() == graph.edges@.len());
        }
    }
    false
}

/// Adds the opposites that the edges lack.
pub fn write_other_direction_edges(graph: &mut Graph<NodePL, EdgePL>)
    requires
        old(graph).wf(),
    ensures
        final(graph).wf(),
        same_but_edges(*old(graph), *final(graph)),
        work_of(final(graph).edges@) == with_opposites(
            work_of(old(graph).edges@),
            old(graph).edges@.len() as int,
        ),
{
    let count: usize = graph.edges.len();
    let ghost w0 = work_of(graph.edges@);
    let mut k: usize = 0;
    while k < count
        invariant
            count == old(graph).edges@.len(),
            w0 == work_of(old(graph).edges@),
            k <= count,
            graph.wf(),
            same_but_edges(*old(graph), *graph),
            work_of(graph.edges@) == with_opposites(w0, k as int),
            graph.edges@.len() >= count,
        decreases count - k,
    {
        proof {
            lemma_with_opposites_prefix(w0, k as int);
            assert(with_opposites(w0, k as int)[k as int] == w0[k as int]);
            assert(work_of(graph.edges@)[k as int] == w0[k as int]);
        }
        let from: usize = graph.edges[k].from;
        let to: usize = graph.edges[k].to;
        assert(graph.edges@[k as int].from < graph.nodes@.len());
        if !directed_edge_exists(graph, to, from) {
            let payload = graph.edges[k].payload.rev_copy();
            let ghost pv = payload@;
            let ghost before = *graph;
            graph.add_edge(to, from, payload);
            proof {
                assert(work_of(graph.edges@) =~= work_of(before.edges@).push(opposite(w0[k as int])));
            }
        }
        k = k + 1;
    }
}

/// The cost of an edge that is used against its direction.
pub open spec fn penalized(cost: u32, factor: u32, entry_cost_seconds: u32) -> u32 {
    let c = crate::router::weights::capped((cost * factor) as nat);
    let e = crate::router::weights::capped((entry_cost_seconds * 10) as nat);
    crate::router::weights::capped((c + e) as nat)
}

fn mul_capped(a: u32, b: u32) -> (r: u32)
    ensures
        r == crate::router::weights::capped((a * b) as nat),
{
    let x: u64 = a as u64;
    let y: u64 = b as u64;
    assert(x * y <= 0xffff_ffff * 0xffff_ffff) by (nonlinear_arith)
        requires
            x <= 0xffff_ffff,
            y <= 0xffff_ffff,
    ;
    assert(x * y == a * b) by (nonlinear_arith)
        requires
            x == a,
            y == b,
    ;
    let p: u64 = x * y;
    if p >= u32::MAX as u64 {
        u32::MAX
    } else {
        p as u32
    }
}

/// Makes edges that are used against their direction dearer: their cost is multiplied, and the
/// entry cost is added in tenths of a second.
pub fn apply_one_way_penalty(
    graph: &mut Graph<NodePL, EdgePL>,
    factor: u32,
    entry_cost_seconds: u32,
)
    requires
        old(graph).wf(),
    ensures
        final(graph).wf(),
        final(graph).nodes@ == old(graph).nodes@,
        final(graph).transit_lines@ == old(graph).transit_lines@,
        final(graph).edges@.len() == old(graph).edges@.len(),
        forall|k: int|
            #![trigger final(graph).edges@[k]]
            0 <= k < old(graph).edges@.len() ==> {
                let a = old(graph).edges@[k];
                let b = final(graph).edges@[k];
                &&& b.from == a.from
                &&& b.to == a.to
                &&& b.payload@ == (if a.payload.oneway == 2 {
                    EdgeView {
                        cost: penalized(a.payload.cost, factor, entry_cost_seconds),
                        ..a.payload@
                    }
                } else {
                    a.payload@
                })
            },
{
    let entry_cost: u32 = mul_capped(entry_cost_seconds, 10);
    let mut k: usize = 0;
    while k < graph.edges.len()
        invariant
            entry_cost == crate::router::weights::capped((entry_cost_seconds * 10) as nat),
            graph.nodes@ == old(graph).nodes@,
            graph.transit_lines@ == old(graph).transit_lines@,
            graph.edges@.len() == old(graph).edges@.len(),
            k <= graph.edges@.len(),
            forall|j: int|
                #![trigger graph.edges@[j]]
                k <= j < graph.edges@.len() ==> graph.edges@[j] == old(graph).edges@[j],
            forall|j: int|
                #![trigger graph.edges@[j]]
                0 <= j < k ==> {
                    let a = old(graph).edges@[j];
                    let b = graph.edges@[j];
                    &&& b.from == a.from
                    &&& b.to == a.to
                    &&& b.payload@ == (if a.payload.oneway == 2 {
                        EdgeView {
                            cost: penalized(a.payload.cost, factor, entry_cost_seconds),
                            ..a.payload@
                        }
                    } else {
                        a.payload@
                    })
                },
        decreases graph.edges@.len() - k,
    {
        assert(graph.edges@[k as int] == old(graph).edges@[k as int]);
        if graph.edges[k].payload.oneway == 2 {
            let c: u32 = graph.edges[k].payload.cost;
            let d: u32 = mul_capped(c, factor).saturating_add(entry_cost);
            graph.edges[k].payload.cost = d;
        }
        k = k + 1;
    }
    proof {
        lemma_same_ends_wf(*old(graph), *graph);
    }
}

/// A graph stays well-formed as long as the ends of its edges stay.
pub proof fn lemma_same_ends_wf(a: Graph<NodePL, EdgePL>, b: Graph<NodePL, EdgePL>)
    requires
        a.wf(),
        b.nodes@.len() == a.nodes@.len(),
        forall|i: int|
            #![trigger b.nodes@[i]]
            0 <= i < a.nodes@.len() ==> b.nodes@[i].out_edges@ == a.nodes@[i].out_edges@
                && b.nodes@[i].in_edges@ == a.nodes@[i].in_edges@,
        b.edges@.len() == a.edges@.len(),
        forall|k: int|
            #![trigger b.edges@[k]]
            0 <= k < a.edges@.len() ==> b.edges@[k].from == a.edges@[k].from && b.edges@[k].to
                == a.edges@[k].to,
    ensures
        b.wf(),
{
    assert forall|e: int| #![trigger b.edges@[e]] 0 <= e < b.edges@.len() implies {
        &&& b.edges@[e].from < b.nodes@.len()
        &&& b.edges@[e].to < b.nodes@.len()
        &&& b.nodes@[b.edges@[e].from as int].out_edges@.contains(e as usize)
        &&& b.nodes@[b.edges@[e].to as int].in_edges@.contains(e as usize)
    } by {
        let x = a.edges@[e];
        assert(b.nodes@[x.from as int].out_edges@ == a.nodes@[x.from as int].out_edges@);
        assert(b.nodes@[x.to as int].in_edges@ == a.nodes@[x.to as int].in_edges@);
    }
    assert forall|n: int, k: int|
        #![trigger b.nodes@[n].out_edges@[k]]
        0 <= n < b.nodes@.len() && 0 <= k < b.nodes@[n].out_edges@.len() implies {
        let e = b.nodes@[n].out_edges@[k];
        e < b.edges@.len() && b.edges@[e as int].from == n
    } by {
        assert(a.nodes@[n].out_edges@[k] == b.nodes@[n].out_edges@[k]);
    }
    assert forall|n: int, k: int|
        #![trigger b.nodes@[n].in_edges@[k]]
        0 <= n < b.nodes@.len() && 0 <= k < b.nodes@[n].in_edges@.len() implies {
        let e = b.nodes@[n].in_edges@[k];
        e < b.edges@.len() && b.edges@[e as int].to == n
    } by {
        assert(a.nodes@[n].in_edges@[k] == b.nodes@[n].in_edges@[k]);
    }
}

/// An edge that is used against its direction costs its cost times the factor and ten for every second of the
/// entry cost, as far as can be counted.
pub proof fn lemma_penalized(cost: u32, factor: u32, entry_cost_seconds: u32)
    ensures
        cost * factor + 10 * entry_cost_seconds <= u32::MAX ==> penalized(
            cost,
            factor,
            entry_cost_seconds,
        ) == cost * factor + 10 * entry_cost_seconds,
        cost * factor + 10 * entry_cost_seconds > u32::MAX ==> penalized(
            cost,
            factor,
            entry_cost_seconds,
        ) == u32::MAX,
{
    assert(cost * factor >= 0) by (nonlinear_arith)
        requires
            cost >= 0,
            factor >= 0,
    ;
}

/// Whether the course of every edge, turned round if it is that of an edge seen from its other end, begins
/// where the edge begins and ends where it ends.
pub open spec fn aligned(w: Work, points: Seq<Point>) -> bool {
    forall|k: int|
        #![trigger w[k]]
        0 <= k < w.len() ==> {
            let g = w[k].payload.geometry;
            &&& w[k].from < points.len()
            &&& w[k].to < points.len()
            &&& g.len() > 0
            &&& (if w[k].payload.is_reverse {
                g[g.len() - 1]
            } else {
                g[0]
            }) == points[w[k].from as int]
            &&& (if w[k].payload.is_reverse {
                g[0]
            } else {
                g[g.len() - 1]
            }) == points[w[k].to as int]
        }
}

/// Opposite edges lie along the edges that they are opposite to, the other way round, at the same cost, and
/// are one-way the other way round.
pub proof fn lemma_opposites_aligned(w: Work, k: int, points: Seq<Point>)
    requires
        0 <= k <= w.len(),
        aligned(w, points),
        forall|i: int| #![trigger w[i]] 0 <= i < w.len() ==> !w[i].payload.is_reverse,
    ensures
        aligned(with_opposites(w, k), points),
        forall|i: int|
            #![trigger with_opposites(w, k)[i]]
            w.len() <= i < with_opposites(w, k).len() ==> exists|j: int|
                0 <= j < k && (#[trigger] w[j]).from == with_opposites(w, k)[i].to && w[j].to
                    == with_opposites(w, k)[i].from && w[j].payload.geometry == with_opposites(
                    w,
                    k,
                )[i].payload.geometry && w[j].payload.cost == with_opposites(w, k)[i].payload.cost
                    && w[j].payload.lines == with_opposites(w, k)[i].payload.lines
                    && (w[j].payload.oneway == 1 ==> with_opposites(w, k)[i].payload.oneway == 2) && (
                w[j].payload.oneway == 0 ==> with_opposites(w, k)[i].payload.oneway == 0),
    decreases k,
{
    if k > 0 {
        lemma_opposites_aligned(w, k - 1, points);
        lemma_with_opposites_prefix(w, k - 1);
        lemma_with_opposites_prefix(w, k);
        let a = with_opposites(w, k - 1);
        let b = with_opposites(w, k);
        assert forall|i: int| #![trigger b[i]] 0 <= i < b.len() implies {
            let g = b[i].payload.geometry;
            &&& b[i].from < points.len()
            &&& b[i].to < points.len()
            &&& g.len() > 0
            &&& (if b[i].payload.is_reverse {
                g[g.len() - 1]
            } else {
                g[0]
            }) == points[b[i].from as int]
            &&& (if b[i].payload.is_reverse {
                g[0]
            } else {
                g[g.len() - 1]
            }) == points[b[i].to as int]
        } by {
            if i < a.len() {
                assert(b[i] == a[i]);
            } else {
                assert(w[k - 1] == w[k - 1]);
            }
        }
        assert forall|i: int| #![trigger b[i]] w.len() <= i < b.len() implies exists|j: int|
            0 <= j < k && (#[trigger] w[j]).from == b[i].to && w[j].to == b[i].from
                && w[j].payload.geometry == b[i].payload.geometry && w[j].payload.cost
                == b[i].payload.cost && w[j].payload.lines == b[i].payload.lines && (
            w[j].payload.oneway == 1 ==> b[i].payload.oneway == 2) && (w[j].payload.oneway == 0
                ==> b[i].payload.oneway == 0) by {
            if i < a.len() {
                assert(b[i] == a[i]);
                let j = choose|j: int|
                    0 <= j < k - 1 && (#[trigger] w[j]).from == a[i].to && w[j].to == a[i].from
                        && w[j].payload.geometry == a[i].payload.geometry && w[j].payload.cost
                        == a[i].payload.cost && w[j].payload.lines == a[i].payload.lines && (
                    w[j].payload.oneway == 1 ==> a[i].payload.oneway == 2) && (w[j].payload.oneway
                        == 0 ==> a[i].payload.oneway == 0);
                assert(w[j].from == b[i].to);
            } else {
                assert(w[k - 1].from == b[i].to);
            }
        }
    }
}

} // verus!
