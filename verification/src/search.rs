//! Walks through the routing graph, and what a search may use of it.

use crate::geometry::{distance_on_plane, BBox, Point};
use crate::graph::{Edge, EdgePL, Graph, NodePL, MODE_BUS};
use crate::hashed::{indices_contains, indices_of, IndexSet, Label};
use crate::text::{contains_ignore_case, contains_str, to_lowercase};
use vstd::prelude::*;

verus! {

/// The names by which a trip's line may be known. Names stand here in lower case.
pub struct TransitMatch {
    pub short_name: Option<String>,
    pub long_name: Option<String>,
    pub operator: Option<String>,
}

/// Whether a wanted name and the name of a line are parts of one another, letter case aside.
pub open spec fn names_agree(target: Seq<char>, line: Seq<char>) -> bool {
    ||| crate::text::occurs_ignore_case(
        vstd::utf8::encode_utf8(line),
        vstd::utf8::encode_utf8(target),
    )
    ||| crate::text::occurs_in(target, crate::text::lowercase_of(line))
}

fn do_names_agree(target: &String, line: &String) -> (r: bool)
    ensures
        r == names_agree(target@, line@),
{
    if contains_ignore_case(line.as_str(), target.as_str()) {
        return true;
    }
    let lower = to_lowercase(line.as_str());
    contains_str(target.as_str(), lower.as_str())
}

impl TransitMatch {
    /// Whether a line of this name is the one that is looked for.
    pub open spec fn accepts(&self, line: Seq<char>) -> bool {
        ||| self.short_name matches Some(t) && names_agree(t@, line)
        ||| self.long_name matches Some(t) && names_agree(t@, line)
    }

    /// Whether a line of this name is the one that is looked for. The operator plays no part.
    pub fn matches_line(&self, line: &String) -> (r: bool)
        ensures
            r == self.accepts(line@),
    {
        if let Some(t) = &self.short_name {
            if do_names_agree(t, line) {
                return true;
            }
        }
        if let Some(t) = &self.long_name {
            if do_names_agree(t, line) {
                return true;
            }
        }
        false
    }
}

/// Which part of a graph a search may use, and at which cost.
///
/// Costs are counted in fifths of the unit in which `EdgePL::cost` is given, so that the discount
/// for a preferred line is a whole number.
#[derive(Clone, Copy)]
pub struct Query<'a> {
    pub graph: &'a Graph<NodePL, EdgePL>,
    /// Edges with one of these modes are used at their cost.
    pub allowed_modes: u8,
    /// Edges that have only one of these modes are used at ten times their cost.
    pub fallback_modes: u8,
    /// If given, no other edge is used.
    pub allowed_edges: Option<&'a IndexSet>,
    /// If given, edges that carry this line are used at a fifth of their cost.
    pub preferred_match: Option<&'a TransitMatch>,
    /// If given, the search enters no node outside.
    pub bounding_box: Option<BBox>,
}

/// An upper bound of the cost of an edge.
pub open spec fn step_bound() -> nat {
    50 * (u32::MAX as nat)
}

impl<'a> Query<'a> {
    pub open spec fn edge_at(&self, e: usize) -> Edge<EdgePL> {
        self.graph.edges@[e as int]
    }

    /// Whether the edge exists and may be used.
    pub open spec fn usable(&self, e: usize) -> bool {
        &&& e < self.graph.edges@.len()
        &&& self.allowed_edges matches Some(s) ==> indices_of(*s).contains(e)
        &&& (self.edge_at(e).payload.allowed_modes & (self.allowed_modes | self.fallback_modes))
            != 0
    }

    /// Whether the edge carries a line that the query prefers.
    pub open spec fn preferred(&self, e: usize) -> bool {
        &&& self.preferred_match is Some
        &&& exists|k: int|
            #![trigger self.edge_at(e).payload.lines@[k]]
            0 <= k < self.edge_at(e).payload.lines@.len() && {
                let id = self.edge_at(e).payload.lines@[k];
                &&& id < self.graph.transit_lines@.len()
                &&& self.preferred_match->0.accepts(
                    self.graph.transit_lines@[id as int].short_name@,
                )
            }
    }

    /// The cost of the edge.
    pub open spec fn step(&self, e: usize) -> nat {
        let base = (self.edge_at(e).payload.cost as nat) * (if self.preferred(e) {
            1nat
        } else {
            5nat
        });
        if (self.edge_at(e).payload.allowed_modes & self.allowed_modes) == 0 {
            10 * base
        } else {
            base
        }
    }

    /// Whether a search may enter the node.
    pub open spec fn admits(&self, n: usize) -> bool {
        self.bounding_box matches Some(b) ==> b.holds(self.graph.nodes@[n as int].payload.point)
    }

    /// Whether a search in the given direction may go from `u` to `v` by the edge.
    pub open spec fn arc(&self, fwd: bool, u: usize, e: usize, v: usize) -> bool {
        &&& self.usable(e)
        &&& self.admits(v)
        &&& if fwd {
            self.edge_at(e).from == u && self.edge_at(e).to == v
        } else {
            self.edge_at(e).to == u && self.edge_at(e).from == v
        }
    }

    /// Whether the edges, taken one after another, lead from `s` to `t`.
    pub open spec fn walk(&self, es: Seq<usize>, s: usize, t: usize) -> bool
        decreases es.len(),
    {
        if es.len() == 0 {
            s == t
        } else {
            let e = es.last();
            &&& self.usable(e)
            &&& self.edge_at(e).to == t
            &&& self.walk(es.drop_last(), s, self.edge_at(e).from)
        }
    }

    /// The total cost of the edges.
    pub open spec fn cost(&self, es: Seq<usize>) -> nat
        decreases es.len(),
    {
        if es.len() == 0 {
            0
        } else {
            self.cost(es.drop_last()) + self.step(es.last())
        }
    }

    /// The node that a walk from `s` has reached after `i` edges.
    pub open spec fn node_at(&self, es: Seq<usize>, s: usize, i: int) -> usize {
        if i <= 0 {
            s
        } else {
            self.edge_at(es[i - 1]).to
        }
    }

    /// Whether the edges lead from `s` to `t` and every node on the way may be entered.
    pub open spec fn open_walk(&self, es: Seq<usize>, s: usize, t: usize) -> bool {
        &&& self.walk(es, s, t)
        &&& forall|i: int| 0 < i < es.len() ==> self.admits(#[trigger] self.node_at(es, s, i))
    }

    /// The cost of the edge, in fifths of a cost unit.
    pub fn get_edge_cost(&self, e: usize) -> (r: u64)
        requires
            e < self.graph.edges@.len(),
        ensures
            r == self.step(e),
            r <= step_bound(),
    {
        let edge = self.graph.edge(e);
        let base: u64 = edge.payload.cost as u64;
        let mut discounted = false;
        if let Some(pm) = self.preferred_match {
            let mut k: usize = 0;
            while k < edge.payload.lines.len()
                invariant_except_break
                    !discounted,
                    forall|j: int|
                        #![trigger self.edge_at(e).payload.lines@[j]]
                        0 <= j < k ==> {
                            let id = self.edge_at(e).payload.lines@[j];
                            !(id < self.graph.transit_lines@.len() && pm.accepts(
                                self.graph.transit_lines@[id as int].short_name@,
                            ))
                        },
                invariant
                    k <= edge.payload.lines@.len(),
                    *edge == self.edge_at(e),
                    self.preferred_match == Some(pm),
                ensures
                    discounted == self.preferred(e),
                decreases edge.payload.lines@.len() - k,
            {
                if let Some(line) = self.graph.transit_info(edge.payload.lines[k]) {
                    if pm.matches_line(&line.short_name) {
                        discounted = true;
                        assert(self.edge_at(e).payload.lines@[k as int]
                            < self.graph.transit_lines@.len());
                        break ;
                    }
                }
                k = k + 1;
            }
        }
        let scaled: u64 = if discounted { base } else { 5 * base };
        if (edge.payload.allowed_modes & self.allowed_modes) == 0 {
            10 * scaled
        } else {
            scaled
        }
    }

    /// Whether the edge may be used.
    pub fn is_usable(&self, e: usize) -> (r: bool)
        requires
            e < self.graph.edges@.len(),
        ensures
            r == self.usable(e),
    {
        if let Some(s) = self.allowed_edges {
            if !indices_contains(s, e) {
                return false;
            }
        }
        (self.graph.edge(e).payload.allowed_modes & (self.allowed_modes | self.fallback_modes)) != 0
    }

    /// Whether the node may be entered.
    pub fn is_admitted(&self, n: usize) -> (r: bool)
        requires
            n < self.graph.nodes@.len(),
        ensures
            r == self.admits(n),
    {
        match self.bounding_box {
            Some(b) => b.contains(self.graph.node(n).payload.point),
            None => true,
        }
    }
}

/// What the use of an edge costs, in fifths: five times its cost, a fifth of that if it carries the preferred
/// line, and ten times that if it has none of the modes that are asked for, only a mode to fall back on. So a
/// preferred edge is never dearer than another of its cost, nor is one of the right mode.
pub proof fn lemma_step(q: Query, a: usize, b: usize)
    ensures
        q.preferred_match is None && (q.edge_at(a).payload.allowed_modes & q.allowed_modes) != 0
            ==> q.step(a) == 5 * q.edge_at(a).payload.cost,
        q.edge_at(a).payload.cost == q.edge_at(b).payload.cost && ((q.edge_at(a).payload.allowed_modes
            & q.allowed_modes) == 0) == ((q.edge_at(b).payload.allowed_modes & q.allowed_modes) == 0)
            && q.preferred(a) && !q.preferred(b) ==> 5 * q.step(a) == q.step(b),
        q.edge_at(a).payload.cost == q.edge_at(b).payload.cost && (q.edge_at(a).payload.allowed_modes
            & q.allowed_modes) != 0 && (q.edge_at(b).payload.allowed_modes & q.allowed_modes) == 0
            && q.preferred(a) == q.preferred(b) ==> 10 * q.step(a) == q.step(b),
{
}

/// How much a search is drawn to its goal, in fifths of a cost unit: the length of the straight
/// way in metres, at seven tenths for buses and at one tenth for everything else.
pub open spec fn pull(allowed_modes: u8, p: Point, goal: Point, cos: u32) -> nat {
    crate::geometry::plane_distance(p, goal, cos) * 111_320 * (if allowed_modes == MODE_BUS {
        35nat
    } else {
        5nat
    }) / 100_000_000_000_000_000
}

/// A bound of `pull`.
pub const MAX_PULL: u64 = 1_000_000_000;

/// No pull exceeds `MAX_PULL`.
pub proof fn lemma_pull_bounded(allowed_modes: u8, p: Point, goal: Point, cos: u32)
    requires
        cos <= 1_000_000_000,
    ensures
        pull(allowed_modes, p, goal, cos) <= MAX_PULL,
{
    crate::geometry::lemma_plane_distance_bounded(p, goal, cos);
    let d = crate::geometry::plane_distance(p, goal, cos) * 111_320;
    let f: nat = if allowed_modes == MODE_BUS {
        35
    } else {
        5
    };
    assert(d * f <= 8_000_000_000_000_000_000 * 111_320 * 35) by (nonlinear_arith)
        requires
            d <= 8_000_000_000_000_000_000 * 111_320,
            f <= 35,
    ;
}

/// `pull`, for a cosine of at most one.
pub fn heuristic_m(allowed_modes: u8, p: Point, goal: Point, cos: u32) -> (r: u64)
    requires
        cos <= 1_000_000_000,
    ensures
        r == pull(allowed_modes, p, goal, cos),
        r <= MAX_PULL,
{
    let d: u128 = distance_on_plane(p, goal, cos) as u128;
    let f: u128 = if allowed_modes == MODE_BUS { 35 } else { 5 };
    let scaled: u128 = d * 111_320;
    assert(scaled * f <= 8_000_000_000_000_000_000 * 111_320 * 35) by (nonlinear_arith)
        requires
            scaled <= 8_000_000_000_000_000_000 * 111_320,
            f <= 35,
    ;
    ((scaled * f) / 100_000_000_000_000_000) as u64
}

// Walks.

pub proof fn lemma_cost_push(q: Query, es: Seq<usize>, e: usize)
    ensures
        q.cost(es.push(e)) == q.cost(es) + q.step(e),
{
    assert(es.push(e).drop_last() =~= es);
}

pub proof fn lemma_walk_push(q: Query, es: Seq<usize>, s: usize, e: usize)
    requires
        q.usable(e),
        q.walk(es, s, q.edge_at(e).from),
    ensures
        q.walk(es.push(e), s, q.edge_at(e).to),
{
    assert(es.push(e).drop_last() =~= es);
}

/// Walks that meet make up one walk, whose cost is the sum of theirs.
pub proof fn lemma_walk_join(q: Query, a: Seq<usize>, b: Seq<usize>, s: usize, m: usize, t: usize)
    requires
        q.walk(a, s, m),
        q.walk(b, m, t),
    ensures
        q.walk(a + b, s, t),
    decreases b.len(),
{
    if b.len() == 0 {
        assert(a + b =~= a);
    } else {
        let e = b.last();
        lemma_walk_join(q, a, b.drop_last(), s, m, q.edge_at(e).from);
        assert((a + b).drop_last() =~= a + b.drop_last());
        assert((a + b).last() == e);
    }
}

pub proof fn lemma_cost_join(q: Query, a: Seq<usize>, b: Seq<usize>)
    ensures
        q.cost(a + b) == q.cost(a) + q.cost(b),
    decreases b.len(),
{
    if b.len() == 0 {
        assert(a + b =~= a);
    } else {
        lemma_cost_join(q, a, b.drop_last());
        assert((a + b).drop_last() =~= a + b.drop_last());
        assert((a + b).last() == b.last());
    }
}

/// Every edge of a walk leads from the node reached before it to the node reached after it.
pub proof fn lemma_walk_nodes(q: Query, es: Seq<usize>, s: usize, t: usize)
    requires
        q.walk(es, s, t),
    ensures
        q.node_at(es, s, es.len() as int) == t,
        forall|i: int|
            #![trigger es[i]]
            0 <= i < es.len() ==> q.usable(es[i]) && q.edge_at(es[i]).from == q.node_at(es, s, i)
                && q.edge_at(es[i]).to == q.node_at(es, s, i + 1),
    decreases es.len(),
{
    if es.len() > 0 {
        let p = es.drop_last();
        lemma_walk_nodes(q, p, s, q.edge_at(es.last()).from);
        assert forall|i: int| #![trigger es[i]] 0 <= i < es.len() implies q.usable(es[i])
            && q.edge_at(es[i]).from == q.node_at(es, s, i) && q.edge_at(es[i]).to == q.node_at(
            es,
            s,
            i + 1,
        ) by {
            if i < p.len() {
                assert(p[i] == es[i]);
                assert(q.node_at(p, s, i) == q.node_at(es, s, i));
            } else {
                assert(q.node_at(p, s, i) == q.node_at(es, s, i));
            }
        }
    }
}

/// A single edge of a walk.
pub proof fn lemma_walk_edge(q: Query, es: Seq<usize>, s: usize, t: usize, i: int)
    requires
        q.walk(es, s, t),
        0 <= i < es.len(),
    ensures
        q.usable(es[i]),
        q.edge_at(es[i]).from == q.node_at(es, s, i),
        q.edge_at(es[i]).to == q.node_at(es, s, i + 1),
{
    lemma_walk_nodes(q, es, s, t);
}

/// Edges that follow one another make up a walk.
pub proof fn lemma_nodes_walk(q: Query, es: Seq<usize>, s: usize)
    requires
        forall|i: int|
            #![trigger es[i]]
            0 <= i < es.len() ==> q.usable(es[i]) && q.edge_at(es[i]).from == q.node_at(es, s, i),
    ensures
        q.walk(es, s, q.node_at(es, s, es.len() as int)),
    decreases es.len(),
{
    if es.len() > 0 {
        let p = es.drop_last();
        assert forall|i: int| #![trigger p[i]] 0 <= i < p.len() implies q.usable(p[i]) && q.edge_at(
            p[i],
        ).from == q.node_at(p, s, i) by {
            assert(p[i] == es[i]);
        }
        lemma_nodes_walk(q, p, s);
        assert(es[es.len() - 1] == es.last());
        assert(q.node_at(p, s, p.len() as int) == q.node_at(es, s, p.len() as int));
    }
}

/// The cost of the first edges and of the remaining ones.
pub proof fn lemma_cost_split(q: Query, es: Seq<usize>, i: int)
    requires
        0 <= i <= es.len(),
    ensures
        q.cost(es.take(i)) + q.cost(es.skip(i)) == q.cost(es),
{
    assert(es.take(i) + es.skip(i) =~= es);
    lemma_cost_join(q, es.take(i), es.skip(i));
}

pub proof fn lemma_cost_take_next(q: Query, es: Seq<usize>, i: int)
    requires
        0 <= i < es.len(),
    ensures
        q.cost(es.take(i + 1)) == q.cost(es.take(i)) + q.step(es[i]),
{
    assert(es.take(i + 1) =~= es.take(i).push(es[i]));
    lemma_cost_push(q, es.take(i), es[i]);
}

pub proof fn lemma_cost_skip_next(q: Query, es: Seq<usize>, i: int)
    requires
        0 <= i < es.len(),
    ensures
        q.cost(es.skip(i)) == q.step(es[i]) + q.cost(es.skip(i + 1)),
{
    lemma_cost_split(q, es, i);
    lemma_cost_split(q, es, i + 1);
    lemma_cost_take_next(q, es, i);
}

/// The reversal of a sequence of edges costs the same.
pub proof fn lemma_cost_reverse(q: Query, es: Seq<usize>)
    ensures
        q.cost(es.reverse()) == q.cost(es),
    decreases es.len(),
{
    if es.len() > 0 {
        let p = es.drop_last();
        lemma_cost_reverse(q, p);
        assert(es.reverse() =~= seq![es.last()] + p.reverse());
        lemma_cost_join(q, seq![es.last()], p.reverse());
        assert(seq![es.last()].drop_last() =~= Seq::<usize>::empty());
        assert(q.cost(seq![es.last()]) == q.step(es.last())) by {
            reveal_with_fuel(Query::cost, 2);
        }
    } else {
        assert(es.reverse() =~= es);
    }
}

// Labels.

/// Whether going on from `u` by the edge leads to no better way to `v` than its label has.
pub open spec fn relaxed(
    q: Query,
    labels: Map<usize, Label>,
    u: usize,
    e: usize,
    v: usize,
) -> bool {
    labels.contains_key(v) && labels[v].g <= labels[u].g + q.step(e)
}

/// Whether all edges by which a search can go on from `u` are relaxed.
pub open spec fn closed_node(q: Query, fwd: bool, labels: Map<usize, Label>, u: usize) -> bool {
    forall|e: usize, v: usize| #[trigger] q.arc(fwd, u, e, v) ==> relaxed(q, labels, u, e, v)
}

/// How far along a walk from `s` the labels are as good as the walk itself.
pub proof fn lemma_reached_from_start(
    q: Query,
    labels: Map<usize, Label>,
    es: Seq<usize>,
    s: usize,
    init: nat,
    k: int,
) -> (i: int)
    requires
        0 <= k <= es.len(),
        labels.contains_key(s),
        labels[s].g <= init,
    ensures
        0 <= i <= k,
        forall|l: int|
            0 <= l <= i ==> labels.contains_key(#[trigger] q.node_at(es, s, l)) && labels[q.node_at(
                es,
                s,
                l,
            )].g <= init + q.cost(es.take(l)),
        i < k ==> !relaxed(q, labels, q.node_at(es, s, i), es[i], q.node_at(es, s, i + 1)),
    decreases k,
{
    if k == 0 {
        assert(es.take(0) =~= Seq::<usize>::empty());
        0
    } else {
        let i = lemma_reached_from_start(q, labels, es, s, init, k - 1);
        if i < k - 1 {
            i
        } else if relaxed(q, labels, q.node_at(es, s, i), es[i], q.node_at(es, s, k)) {
            lemma_cost_take_next(q, es, k - 1);
            k
        } else {
            k - 1
        }
    }
}

/// How far back along a walk to `t` the labels of a backward search are as good as the walk.
pub proof fn lemma_reached_from_end(
    q: Query,
    labels: Map<usize, Label>,
    es: Seq<usize>,
    s: usize,
    t: usize,
    k: int,
) -> (j: int)
    requires
        0 <= k <= es.len(),
        q.node_at(es, s, es.len() as int) == t,
        labels.contains_key(t),
        labels[t].g == 0,
    ensures
        k <= j <= es.len(),
        forall|l: int|
            j <= l <= es.len() ==> labels.contains_key(#[trigger] q.node_at(es, s, l))
                && labels[q.node_at(es, s, l)].g <= q.cost(es.skip(l)),
        j > k ==> !relaxed(q, labels, q.node_at(es, s, j), es[j - 1], q.node_at(es, s, j - 1)),
    decreases es.len() - k,
{
    if k == es.len() {
        k
    } else {
        let j = lemma_reached_from_end(q, labels, es, s, t, k + 1);
        if j > k + 1 {
            j
        } else if relaxed(q, labels, q.node_at(es, s, j), es[k], q.node_at(es, s, k)) {
            lemma_cost_skip_next(q, es, k);
            k
        } else {
            k + 1
        }
    }
}

/// What can still be gained by improving the labels of the first `n` nodes, a node without a label
/// counting `top`.
pub open spec fn potential(f: Map<usize, Label>, n: nat, top: nat) -> nat
    decreases n,
{
    if n == 0 {
        0
    } else {
        let i = (n - 1) as usize;
        potential(f, (n - 1) as nat, top) + (if f.contains_key(i) {
            f[i].g as nat
        } else {
            top
        })
    }
}

pub proof fn lemma_potential_insert(f: Map<usize, Label>, n: nat, top: nat, v: usize, l: Label)
    requires
        n <= usize::MAX,
        l.g < (if f.contains_key(v) {
            f[v].g as nat
        } else {
            top
        }),
    ensures
        v < n ==> potential(f.insert(v, l), n, top) < potential(f, n, top),
        v >= n ==> potential(f.insert(v, l), n, top) == potential(f, n, top),
    decreases n,
{
    if n > 0 {
        lemma_potential_insert(f, (n - 1) as nat, top, v, l);
    }
}

} // verus!
