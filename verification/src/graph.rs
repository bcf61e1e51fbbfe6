//! The routing graph and its payloads.

use crate::geometry::Point;
use crate::hashed::{buckets_get, buckets_new, buckets_of, buckets_push};
use ahash::AHashMap;
use std::hash::Hasher;
use vstd::prelude::*;
use vstd::slice::slice_to_vec;
use vstd::std_specs::hash::DefaultHasherAdditionalSpecFns;

verus! {

pub type NodeIndex = usize;

pub type EdgeIndex = usize;

pub type TransitInfoId = u32;

pub const MODE_RAIL: u8 = 1;

pub const MODE_TRAM: u8 = 2;

pub const MODE_SUBWAY: u8 = 4;

pub const MODE_BUS: u8 = 8;

pub const MODE_FERRY: u8 = 16;

pub const MODE_GONDOLA: u8 = 32;

/// A node with the indices of the edges that leave and enter it.
#[derive(Clone, Debug)]
pub struct Node<N> {
    pub payload: N,
    pub out_edges: Vec<EdgeIndex>,
    pub in_edges: Vec<EdgeIndex>,
}

impl<N> Node<N> {
    /// The incident edges: those that leave, then those that enter.
    pub fn edges(&self) -> (r: Vec<EdgeIndex>)
        ensures
            r@ == self.out_edges@ + self.in_edges@,
    {
        let mut r: Vec<EdgeIndex> = slice_to_vec(self.out_edges.as_slice());
        r.extend_from_slice(self.in_edges.as_slice());
        proof {
            assert(r@ =~= self.out_edges@ + self.in_edges@);
        }
        r
    }
}

/// A directed edge.
#[derive(Clone, Debug)]
pub struct Edge<E> {
    pub payload: E,
    pub from: NodeIndex,
    pub to: NodeIndex,
}

/// A directed multigraph with payloads on nodes and edges.
#[derive(Clone, Debug)]
pub struct Graph<N, E> {
    pub nodes: Vec<Node<N>>,
    pub edges: Vec<Edge<E>>,
    /// The transit lines that `EdgePL::lines` refers to by position.
    pub transit_lines: Vec<TransitInfo>,
}

/// Whether positions ascend.
pub open spec fn ascends(list: Seq<EdgeIndex>) -> bool {
    forall|i: int, j: int|
        #![trigger list[i], list[j]]
        0 <= i < j < list.len() ==> list[i] < list[j]
}

impl<N, E> Graph<N, E> {
    /// Whether the adjacency lists and the edges agree: every edge joins two nodes of the graph,
    /// a node's lists hold, ascending and without repetition, exactly the edges that leave and enter
    /// it.
    pub open spec fn wf(&self) -> bool {
        &&& forall|e: int| #![trigger self.edges@[e]] 0 <= e < self.edges@.len() ==> {
            &&& self.edges@[e].from < self.nodes@.len()
            &&& self.edges@[e].to < self.nodes@.len()
            &&& self.nodes@[self.edges@[e].from as int].out_edges@.contains(e as usize)
            &&& self.nodes@[self.edges@[e].to as int].in_edges@.contains(e as usize)
        }
        &&& forall|n: int, k: int|
            #![trigger self.nodes@[n].out_edges@[k]]
            0 <= n < self.nodes@.len() && 0 <= k < self.nodes@[n].out_edges@.len() ==> {
                let e = self.nodes@[n].out_edges@[k];
                e < self.edges@.len() && self.edges@[e as int].from == n
            }
        &&& forall|n: int, k: int|
            #![trigger self.nodes@[n].in_edges@[k]]
            0 <= n < self.nodes@.len() && 0 <= k < self.nodes@[n].in_edges@.len() ==> {
                let e = self.nodes@[n].in_edges@[k];
                e < self.edges@.len() && self.edges@[e as int].to == n
            }
        &&& forall|n: int|
            #![trigger self.nodes@[n]]
            0 <= n < self.nodes@.len() ==> self.nodes@[n].out_edges@.no_duplicates()
                && self.nodes@[n].in_edges@.no_duplicates() && ascends(self.nodes@[n].out_edges@)
                && ascends(self.nodes@[n].in_edges@)
    }

    /// The empty graph.
    pub fn new() -> (g: Self)
        ensures
            g.wf(),
            g.nodes@ == Seq::<Node<N>>::empty(),
            g.edges@ == Seq::<Edge<E>>::empty(),
            g.transit_lines@ == Seq::<TransitInfo>::empty(),
    {
        Graph { nodes: Vec::new(), edges: Vec::new(), transit_lines: Vec::new() }
    }

    /// Adds a node without edges and returns its index.
    pub fn add_node(&mut self, payload: N) -> (index: NodeIndex)
        ensures
            index == old(self).nodes@.len(),
            final(self).nodes@.len() == index + 1,
            final(self).nodes@.take(index as int) == old(self).nodes@,
            final(self).nodes@[index as int].payload == payload,
            final(self).nodes@[index as int].out_edges@ == Seq::<EdgeIndex>::empty(),
            final(self).nodes@[index as int].in_edges@ == Seq::<EdgeIndex>::empty(),
            final(self).edges@ == old(self).edges@,
            final(self).transit_lines@ == old(self).transit_lines@,
            old(self).wf() ==> final(self).wf(),
    {
        let index: usize = self.nodes.len();
        self.nodes.push(Node { payload, out_edges: Vec::new(), in_edges: Vec::new() });
        proof {
            assert(self.nodes@.take(index as int) =~= old(self).nodes@);
            assert forall|n: int| 0 <= n < index implies #[trigger] self.nodes@[n] == old(
                self,
            ).nodes@[n] by {}
        }
        index
    }

    /// Adds an edge and returns its index.
    pub fn add_edge(&mut self, from: NodeIndex, to: NodeIndex, payload: E) -> (index: EdgeIndex)
        requires
            from < old(self).nodes@.len(),
            to < old(self).nodes@.len(),
        ensures
            index == old(self).edges@.len(),
            final(self).edges@ == old(self).edges@.push(Edge { payload, from, to }),
            final(self).nodes@.len() == old(self).nodes@.len(),
            final(self).transit_lines@ == old(self).transit_lines@,
            forall|n: int| #![trigger final(self).nodes@[n]] 0 <= n < old(self).nodes@.len() ==> {
                &&& final(self).nodes@[n].payload == old(self).nodes@[n].payload
                &&& final(self).nodes@[n].out_edges@ == (if n == from {
                    old(self).nodes@[n].out_edges@.push(index)
                } else {
                    old(self).nodes@[n].out_edges@
                })
                &&& final(self).nodes@[n].in_edges@ == (if n == to {
                    old(self).nodes@[n].in_edges@.push(index)
                } else {
                    old(self).nodes@[n].in_edges@
                })
            },
            old(self).wf() ==> final(self).wf(),
    {
        let index: usize = self.edges.len();
        self.edges.push(Edge { payload, from, to });
        self.nodes[from].out_edges.push(index);
        self.nodes[to].in_edges.push(index);
        proof {
            assert(self.edges.len() == index + 1);
            assert(self.edges@.take(index as int) =~= old(self).edges@);
            if old(self).wf() {
                lemma_add_edge_wf(*old(self), *self, from, to);
            }
        }
        index
    }

    /// The node at `index`.
    pub fn node(&self, index: NodeIndex) -> (r: &Node<N>)
        requires
            index < self.nodes@.len(),
        ensures
            *r == self.nodes@[index as int],
    {
        &self.nodes[index]
    }

    /// The edge at `index`.
    pub fn edge(&self, index: EdgeIndex) -> (r: &Edge<E>)
        requires
            index < self.edges@.len(),
        ensures
            *r == self.edges@[index as int],
    {
        &self.edges[index]
    }

    /// The transit line with this number, if there is one.
    pub fn transit_info(&self, id: TransitInfoId) -> (r: Option<&TransitInfo>)
        ensures
            match r {
                Some(info) => id < self.transit_lines@.len() && *info
                    == self.transit_lines@[id as int],
                None => id >= self.transit_lines@.len(),
            },
    {
        if (id as usize) < self.transit_lines.len() {
            Some(&self.transit_lines[id as usize])
        } else {
            None
        }
    }
}

proof fn lemma_add_edge_wf<N, E>(
    before: Graph<N, E>,
    after: Graph<N, E>,
    from: NodeIndex,
    to: NodeIndex,
)
    requires
        before.wf(),
        from < before.nodes@.len(),
        to < before.nodes@.len(),
        before.edges@.len() < usize::MAX,
        after.edges@.len() == before.edges@.len() + 1,
        after.edges@.take(before.edges@.len() as int) == before.edges@,
        after.edges@.last().from == from,
        after.edges@.last().to == to,
        after.nodes@.len() == before.nodes@.len(),
        forall|n: int| #![trigger after.nodes@[n]] 0 <= n < before.nodes@.len() ==> {
            let index = before.edges@.len() as usize;
            &&& after.nodes@[n].out_edges@ == (if n == from {
                before.nodes@[n].out_edges@.push(index)
            } else {
                before.nodes@[n].out_edges@
            })
            &&& after.nodes@[n].in_edges@ == (if n == to {
                before.nodes@[n].in_edges@.push(index)
            } else {
                before.nodes@[n].in_edges@
            })
        },
    ensures
        after.wf(),
{
    let index = before.edges@.len() as usize;
    assert forall|e: int| 0 <= e < before.edges@.len() implies #[trigger] after.edges@[e]
        == before.edges@[e] by {
        assert(after.edges@.take(before.edges@.len() as int)[e] == after.edges@[e]);
    }
    assert forall|e: int| #![trigger after.edges@[e]] 0 <= e < after.edges@.len() implies {
        &&& after.edges@[e].from < after.nodes@.len()
        &&& after.edges@[e].to < after.nodes@.len()
        &&& after.nodes@[after.edges@[e].from as int].out_edges@.contains(e as usize)
        &&& after.nodes@[after.edges@[e].to as int].in_edges@.contains(e as usize)
    } by {
        if e < before.edges@.len() {
            let x = before.edges@[e];
            let o = before.nodes@[x.from as int].out_edges@;
            let i = before.nodes@[x.to as int].in_edges@;
            let k = choose|k: int| 0 <= k < o.len() && o[k] == e as usize;
            let m = choose|m: int| 0 <= m < i.len() && i[m] == e as usize;
            assert(after.nodes@[x.from as int].out_edges@[k] == e as usize);
            assert(after.nodes@[x.to as int].in_edges@[m] == e as usize);
        } else {
            let o = after.nodes@[from as int].out_edges@;
            let i = after.nodes@[to as int].in_edges@;
            assert(o[o.len() - 1] == index);
            assert(i[i.len() - 1] == index);
        }
    }
    assert forall|n: int| #![trigger after.nodes@[n]] 0 <= n < after.nodes@.len() implies after.nodes@[n].out_edges@.no_duplicates()
        && after.nodes@[n].in_edges@.no_duplicates() && ascends(after.nodes@[n].out_edges@)
        && ascends(after.nodes@[n].in_edges@) by {
        let o = before.nodes@[n].out_edges@;
        let i = before.nodes@[n].in_edges@;
        assert forall|k: int| 0 <= k < o.len() implies #[trigger] o[k] < index by {
            assert(before.nodes@[n].out_edges@[k] == o[k]);
        }
        assert forall|k: int| 0 <= k < i.len() implies #[trigger] i[k] < index by {
            assert(before.nodes@[n].in_edges@[k] == i[k]);
        }
    }
}

/// What a node carries: its position and the number of its connected component.
#[derive(Clone, Copy, Debug, PartialEq, Eq, Structural)]
pub struct NodePL {
    pub point: Point,
    pub comp_id: usize,
}

/// A transit line as it stands on the edges it uses.
#[derive(Clone, Debug, PartialEq, Eq, PartialOrd, Ord, Hash)]
pub struct TransitInfo {
    pub short_name: String,
    pub from_str: String,
    pub to_str: String,
}

impl View for TransitInfo {
    type V = (Seq<char>, Seq<char>, Seq<char>);

    open spec fn view(&self) -> (Seq<char>, Seq<char>, Seq<char>) {
        (self.short_name@, self.from_str@, self.to_str@)
    }
}

/// Whether two transit lines agree in all three names.
fn same_info(a: &TransitInfo, b: &TransitInfo) -> (r: bool)
    ensures
        r == (a@ == b@),
{
    a.short_name == b.short_name && a.from_str == b.from_str && a.to_str == b.to_str
}

/// Collects transit lines and numbers them, the same line always under the same number.
///
/// The lookup table holds hashes and numbers only; the names are kept once, in `infos`.
pub struct TransitInfoInterner {
    infos: Vec<TransitInfo>,
    buckets: AHashMap<u64, Vec<TransitInfoId>>,
}

/// The hash under which a transit line is looked up.
spec fn info_hash(info: (Seq<char>, Seq<char>, Seq<char>)) -> u64 {
    std::collections::hash_map::DefaultHasher::spec_finish(
        seq![
            vstd::utf8::encode_utf8(info.0),
            vstd::utf8::encode_utf8(info.1),
            vstd::utf8::encode_utf8(info.2),
        ],
    )
}

impl View for TransitInfoInterner {
    type V = Seq<(Seq<char>, Seq<char>, Seq<char>)>;

    closed spec fn view(&self) -> Seq<(Seq<char>, Seq<char>, Seq<char>)> {
        self.infos@.map_values(|i: TransitInfo| i@)
    }
}

impl TransitInfoInterner {
    /// Whether no line occurs twice and the lookup table lists every line under its hash.
    pub closed spec fn wf(&self) -> bool {
        let b = buckets_of(self.buckets);
        &&& self@.no_duplicates()
        &&& self.infos@.len() <= u32::MAX + 1
        &&& forall|h: u64, k: int|
            #![trigger b[h][k]]
            b.contains_key(h) && 0 <= k < b[h].len() ==> b[h][k] < self.infos@.len()
        &&& forall|i: int|
            #![trigger self.infos@[i]]
            0 <= i < self.infos@.len() ==> b.contains_key(info_hash(self.infos@[i]@))
                && b[info_hash(self.infos@[i]@)].contains(i as u32)
    }

    /// An interner without lines.
    pub fn new() -> (r: Self)
        ensures
            r.wf(),
            r@ == Seq::<(Seq<char>, Seq<char>, Seq<char>)>::empty(),
    {
        let r = TransitInfoInterner { infos: Vec::new(), buckets: buckets_new() };
        assert(r@ =~= Seq::<(Seq<char>, Seq<char>, Seq<char>)>::empty());
        r
    }

    fn hash_info(info: &TransitInfo) -> (h: u64)
        ensures
            h == info_hash(info@),
    {
        let mut hasher = std::collections::hash_map::DefaultHasher::new();
        hasher.write(info.short_name.as_str().as_bytes());
        hasher.write(info.from_str.as_str().as_bytes());
        hasher.write(info.to_str.as_str().as_bytes());
        proof {
            assert(hasher@ =~= seq![
                vstd::utf8::encode_utf8(info@.0),
                vstd::utf8::encode_utf8(info@.1),
                vstd::utf8::encode_utf8(info@.2),
            ]);
        }
        hasher.finish()
    }

    /// The number of a transit line: the one it has already, else the next free one.
    pub fn intern(&mut self, info: TransitInfo) -> (id: TransitInfoId)
        requires
            old(self).wf(),
            old(self)@.len() <= u32::MAX || old(self)@.contains(info@),
        ensures
            final(self).wf(),
            id < final(self)@.len(),
            final(self)@[id as int] == info@,
            final(self)@ == (if old(self)@.contains(info@) {
                old(self)@
            } else {
                old(self)@.push(info@)
            }),
    {
        let hash = Self::hash_info(&info);
        if let Some(ids) = buckets_get(&self.buckets, hash) {
            let mut k: usize = 0;
            while k < ids.len()
                invariant
                    *self == *old(self),
                    self.wf(),
                    buckets_of(self.buckets).contains_key(hash),
                    ids@ == buckets_of(self.buckets)[hash],
                    k <= ids@.len(),
                    forall|j: int| 0 <= j < k ==> self.infos@[(#[trigger] ids@[j]) as int]@ != info@,
                decreases ids@.len() - k,
            {
                let id: TransitInfoId = ids[k];
                assert(buckets_of(self.buckets)[hash][k as int] < self.infos@.len());
                if same_info(&self.infos[id as usize], &info) {
                    assert(self@[id as int] == info@);
                    return id;
                }
                k = k + 1;
            }
        }
        proof {
            assert forall|i: int| 0 <= i < self@.len() implies self@[i] != info@ by {
                let x = self.infos@[i];
                if x@ == info@ {
                    let ids = buckets_of(self.buckets)[hash];
                    assert(ids.contains(i as u32));
                }
            }
            assert(!self@.contains(info@));
        }
        let ghost before = *self;
        let id: TransitInfoId = self.infos.len() as u32;
        self.infos.push(info);
        buckets_push(&mut self.buckets, hash, id);
        proof {
            assert(self@ =~= before@.push(info@));
            let b0 = buckets_of(before.buckets);
            let b = buckets_of(self.buckets);
            assert forall|h: u64, k: int|
                #![trigger b[h][k]]
                b.contains_key(h) && 0 <= k < b[h].len() implies b[h][k] < self.infos@.len() by {
                if h != hash {
                    assert(b0[h][k] < before.infos@.len());
                } else if b0.contains_key(h) && k < b0[h].len() {
                    assert(b0[h][k] < before.infos@.len());
                }
            }
            assert forall|i: int| #![trigger self.infos@[i]] 0 <= i < self.infos@.len() implies b.contains_key(
                info_hash(self.infos@[i]@),
            ) && b[info_hash(self.infos@[i]@)].contains(i as u32) by {
                let h = info_hash(self.infos@[i]@);
                if i < before.infos@.len() {
                    assert(self.infos@[i] == before.infos@[i]);
                    let k = choose|k: int| 0 <= k < b0[h].len() && b0[h][k] == i as u32;
                    assert(b[h][k] == i as u32);
                } else {
                    assert(b[h][b[h].len() - 1] == id);
                }
            }
        }
        id
    }

    /// The lines, in the order of their numbers.
    pub fn infos(&self) -> (r: &[TransitInfo])
        ensures
            r@.map_values(|i: TransitInfo| i@) == self@,
    {
        self.infos.as_slice()
    }

    /// Gives up the lookup table and keeps the lines, in the order of their numbers.
    pub fn into_infos(self) -> (r: Vec<TransitInfo>)
        ensures
            r@.map_values(|i: TransitInfo| i@) == self@,
    {
        self.infos
    }
}

/// What an edge carries.
#[derive(Debug)]
pub struct EdgePL {
    /// The course of the edge, from its start to its end.
    pub geometry: Vec<Point>,
    /// The transit lines that use the edge, ascending and without repetition.
    pub lines: Vec<TransitInfoId>,
    /// 0 if open both ways, 1 if only along the geometry, 2 if only against it.
    pub oneway: u8,
    /// Travel time in tenths of a second.
    pub cost: u32,
    /// Routing level, 0 being the most important.
    pub level: i32,
    pub restriction: bool,
    pub is_reverse: bool,
    pub allowed_modes: u8,
    pub osmid: i64,
    pub preferred_direction: u8,
}

impl Default for EdgePL {
    fn default() -> (r: Self)
        ensures
            r.geometry@ == Seq::<Point>::empty(),
            r.lines@ == Seq::<TransitInfoId>::empty(),
            r.oneway == 0,
            r.cost == 0,
            r.level == 0,
            !r.restriction,
            !r.is_reverse,
            r.allowed_modes == 0,
            r.osmid == 0,
            r.preferred_direction == 0,
    {
        EdgePL {
            geometry: Vec::new(),
            lines: Vec::new(),
            oneway: 0,
            cost: 0,
            level: 0,
            restriction: false,
            is_reverse: false,
            allowed_modes: 0,
            osmid: 0,
            preferred_direction: 0,
        }
    }
}

/// What an edge carries, as plain values.
pub struct EdgeView {
    pub geometry: Seq<Point>,
    pub lines: Seq<TransitInfoId>,
    pub oneway: u8,
    pub cost: u32,
    pub level: i32,
    pub restriction: bool,
    pub is_reverse: bool,
    pub allowed_modes: u8,
    pub osmid: i64,
    pub preferred_direction: u8,
}

impl View for EdgePL {
    type V = EdgeView;

    open spec fn view(&self) -> EdgeView {
        EdgeView {
            geometry: self.geometry@,
            lines: self.lines@,
            oneway: self.oneway,
            cost: self.cost,
            level: self.level,
            restriction: self.restriction,
            is_reverse: self.is_reverse,
            allowed_modes: self.allowed_modes,
            osmid: self.osmid,
            preferred_direction: self.preferred_direction,
        }
    }
}

/// Whether a sequence ascends strictly.
pub open spec fn ascending(s: Seq<u32>) -> bool {
    forall|i: int, j: int| 0 <= i < j < s.len() ==> s[i] < s[j]
}

/// The one-way flag of an edge, as seen from its other end.
pub open spec fn flipped_oneway(oneway: u8) -> u8 {
    if oneway == 1 {
        2
    } else if oneway == 2 {
        1
    } else {
        oneway
    }
}

/// An edge, as seen from its other end. The geometry is kept as it is.
pub open spec fn reversed_edge(e: EdgeView) -> EdgeView {
    EdgeView { is_reverse: true, oneway: flipped_oneway(e.oneway), ..e }
}

impl Clone for EdgePL {
    fn clone(&self) -> (r: Self)
        ensures
            r@ == self@,
    {
        EdgePL {
            geometry: slice_to_vec(self.geometry.as_slice()),
            lines: slice_to_vec(self.lines.as_slice()),
            oneway: self.oneway,
            cost: self.cost,
            level: self.level,
            restriction: self.restriction,
            is_reverse: self.is_reverse,
            allowed_modes: self.allowed_modes,
            osmid: self.osmid,
            preferred_direction: self.preferred_direction,
        }
    }
}

impl EdgePL {
    /// An empty payload.
    pub fn new() -> (r: Self)
        ensures
            r.geometry@ == Seq::<Point>::empty(),
            r.lines@ == Seq::<TransitInfoId>::empty(),
            r.oneway == 0,
            r.cost == 0,
            r.level == 0,
            !r.restriction,
            !r.is_reverse,
            r.allowed_modes == 0,
            r.osmid == 0,
            r.preferred_direction == 0,
    {
        Self::default()
    }

    /// The payload of the same edge in the opposite direction.
    pub fn rev_copy(&self) -> (r: Self)
        ensures
            r@ == reversed_edge(self@),
    {
        let mut r = self.clone();
        r.is_reverse = true;
        if r.oneway == 1 {
            r.oneway = 2;
        } else if r.oneway == 2 {
            r.oneway = 1;
        }
        r
    }

    /// The point next to the end at which the edge arrives.
    pub open spec fn spec_back_hop(&self) -> Point {
        let g = self.geometry@;
        if g.len() < 2 {
            Point { x: 0, y: 0 }
        } else if self.is_reverse {
            g[1]
        } else {
            g[g.len() - 2]
        }
    }

    /// The point next to the end from which the edge departs.
    pub open spec fn spec_front_hop(&self) -> Point {
        let g = self.geometry@;
        if g.len() < 2 {
            Point { x: 0, y: 0 }
        } else if self.is_reverse {
            g[g.len() - 2]
        } else {
            g[1]
        }
    }

    /// The last point before the edge arrives, or the origin if the edge has no course.
    pub fn back_hop(&self) -> (r: Point)
        ensures
            r == self.spec_back_hop(),
    {
        if self.geometry.len() < 2 {
            return Point { x: 0, y: 0 };
        }
        if self.is_reverse {
            self.geometry[1]
        } else {
            self.geometry[self.geometry.len() - 2]
        }
    }

    /// The first point after the edge departs, or the origin if the edge has no course.
    pub fn front_hop(&self) -> (r: Point)
        ensures
            r == self.spec_front_hop(),
    {
        if self.geometry.len() < 2 {
            return Point { x: 0, y: 0 };
        }
        if self.is_reverse {
            self.geometry[self.geometry.len() - 2]
        } else {
            self.geometry[1]
        }
    }

    /// Adds a line to the lines of the edge, which stay ascending and without repetition.
    pub fn add_line_id(&mut self, id: TransitInfoId)
        requires
            ascending(old(self).lines@),
        ensures
            ascending(final(self).lines@),
            forall|x: u32|
                #![trigger final(self).lines@.contains(x)]
                final(self).lines@.contains(x) <==> old(self).lines@.contains(x) || x == id,
            final(self).geometry@ == old(self).geometry@,
            final(self).oneway == old(self).oneway,
            final(self).cost == old(self).cost,
            final(self).level == old(self).level,
            final(self).restriction == old(self).restriction,
            final(self).is_reverse == old(self).is_reverse,
            final(self).allowed_modes == old(self).allowed_modes,
            final(self).osmid == old(self).osmid,
            final(self).preferred_direction == old(self).preferred_direction,
    {
        let pos: usize = lower_bound(&self.lines, id);
        let ghost before = self.lines@;
        if pos < self.lines.len() && self.lines[pos] == id {
            return ;
        }
        self.lines.insert(pos, id);
        proof {
            let after = self.lines@;
            assert(after =~= before.insert(pos as int, id));
            assert forall|x: u32| #![trigger after.contains(x)] after.contains(x)
                <==> before.contains(x) || x == id by {
                if before.contains(x) {
                    let k = choose|k: int| 0 <= k < before.len() && before[k] == x;
                    assert(after[if k < pos {
                        k
                    } else {
                        k + 1
                    }] == x);
                }
                if x == id {
                    assert(after[pos as int] == id);
                }
                if after.contains(x) && x != id {
                    let k = choose|k: int| 0 <= k < after.len() && after[k] == x;
                    assert(before[if k < pos {
                        k
                    } else {
                        k - 1
                    }] == x);
                }
            }
        }
    }
}

/// The position of the first entry that is not below `id`.
fn lower_bound(lines: &Vec<u32>, id: u32) -> (pos: usize)
    requires
        ascending(lines@),
    ensures
        pos <= lines@.len(),
        forall|i: int| 0 <= i < pos ==> lines@[i] < id,
        forall|i: int| pos <= i < lines@.len() ==> id <= lines@[i],
{
    let mut lo: usize = 0;
    let mut hi: usize = lines.len();
    while lo < hi
        invariant
            ascending(lines@),
            lo <= hi <= lines@.len(),
            forall|i: int| 0 <= i < lo ==> lines@[i] < id,
            forall|i: int| hi <= i < lines@.len() ==> id <= lines@[i],
        decreases hi - lo,
    {
        let mid: usize = lo + (hi - lo) / 2;
        if lines[mid] < id {
            lo = mid + 1;
        } else {
            hi = mid;
        }
    }
    lo
}

} // verus!
