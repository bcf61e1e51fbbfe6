//! The first two passes over a map extract: which relations, ways and nodes a profile needs.

use crate::hashed::{ids_contains, ids_insert, ids_new, ids_of, IdSet};
use crate::id_list::{rising, sort_dedup};
use crate::osm::{Member, OsmId, Relation, Way};
use crate::osm_profile::{
    bus_restriction_relation_kept, relation_flat, relation_is_flat, relation_kept,
    relation_kept_for_profile, restricts_buses, way_dropped, way_dropped_for_profile, way_kept,
    way_kept_for_profile, OsmProfile,
};
use crate::tags::Tags;
use crate::text::str_eq;
use vstd::prelude::*;

verus! {

/// A relation that a profile keeps.
#[derive(Debug)]
pub struct PreRelation {
    pub id: i64,
    pub tags: Tags,
    pub members: Vec<Member>,
}

/// What a profile needs of a map extract.
pub struct IdentifiedResources {
    /// The relations that are kept, in their order.
    pub pre_relations: Vec<PreRelation>,
    /// The ways that relations bring along.
    pub ways_in_relations: IdSet,
    /// The ways that ferry routes bring along.
    pub ways_in_ferry_relations: IdSet,
    /// The nodes that are needed.
    pub needed_nodes: Vec<i64>,
    /// The ways that are kept.
    pub kept_ways: Vec<i64>,
    /// The ways on which turns of buses are restricted.
    pub restricted_ways: IdSet,
    /// The nodes at which turns of buses are restricted.
    pub restriction_via_nodes: IdSet,
}

/// Whether a way is a member of a relation.
pub open spec fn has_way(r: Relation, id: i64) -> bool {
    exists|j: int| 0 <= j < r.members@.len() && (#[trigger] r.members@[j]).member == OsmId::Way(id)
}

/// Whether a node is a member of a relation.
pub open spec fn has_node(r: Relation, id: i64) -> bool {
    exists|j: int| 0 <= j < r.members@.len() && (#[trigger] r.members@[j]).member == OsmId::Node(id)
}

/// Whether a way is where a restricted turn begins or ends.
pub open spec fn turn_way(m: Member, id: i64) -> bool {
    m.member == OsmId::Way(id) && (m.role@ == "from"@ || m.role@ == "to"@)
}

/// Whether a node is where a restricted turn takes place.
pub open spec fn turn_node(m: Member, id: i64) -> bool {
    m.member == OsmId::Node(id) && m.role@ == "via"@
}

/// Whether a way is where a turn that a relation restricts begins or ends.
pub open spec fn has_turn_way(r: Relation, id: i64) -> bool {
    exists|j: int| 0 <= j < r.members@.len() && #[trigger] turn_way(r.members@[j], id)
}

/// Whether a node is where a turn that a relation restricts takes place.
pub open spec fn has_turn_node(r: Relation, id: i64) -> bool {
    exists|j: int| 0 <= j < r.members@.len() && #[trigger] turn_node(r.members@[j], id)
}

/// Whether a relation restricts turns in a profile.
pub open spec fn restricts(r: Relation, profile: OsmProfile) -> bool {
    (profile == OsmProfile::Bus || profile is Generic) && restricts_buses(r.tags)
}

/// Whether a relation brings its members along.
pub open spec fn brings_members(r: Relation, profile: OsmProfile) -> bool {
    relation_kept(r.tags, profile) && !relation_flat(r.tags, profile)
}

/// Whether a relation is a ferry route that brings its members along.
pub open spec fn brings_ferry(r: Relation, profile: OsmProfile) -> bool {
    brings_members(r, profile) && r.tags.has("route"@, "ferry"@)
}

/// Whether a relation needs a node.
pub open spec fn needs_node(r: Relation, profile: OsmProfile, id: i64) -> bool {
    (restricts(r, profile) && has_turn_node(r, id)) || (brings_members(r, profile) && has_node(
        r,
        id,
    ))
}

/// Whether a way is a small road that only its own tags would keep.
pub open spec fn small_road(tags: Tags) -> bool {
    tags.has2("highway"@, "residential"@, "service"@) || tags.has("service"@, "driveway"@)
}

/// Whether a way is brought along by a relation and not dropped.
pub open spec fn way_brought(way: Way, profile: OsmProfile, brought: Set<i64>) -> bool {
    brought.contains(way.id) && !way_dropped(way.tags, profile)
}

/// Whether a way is kept: by its tags or through a relation, unless it is a small road and those are
/// to be skipped. It has at least two nodes.
pub open spec fn keeps_way(
    way: Way,
    profile: OsmProfile,
    skip_small_roads: bool,
    brought: Set<i64>,
    ferries: Set<i64>,
) -> bool {
    &&& way.nodes@.len() > 1
    &&& way_brought(way, profile, brought) || (way_kept(way.tags, way.id, profile, ferries) && !(
    skip_small_roads && small_road(way.tags)))
}

/// Whether a relation has become one that is kept.
pub open spec fn same_relation(p: PreRelation, r: Relation) -> bool {
    p.id == r.id && p.tags == r.tags && p.members == r.members
}

/// Notes the ways and nodes of a relation, and its ways once more if ferries use them.
pub(crate) fn note_members(
    ways: &mut IdSet,
    ferries: &mut IdSet,
    nodes: &mut Vec<i64>,
    relation: &Relation,
    ferry: bool,
)
    ensures
        forall|id: i64| #[trigger]
            ids_of(*final(ways)).contains(id) <==> ids_of(*old(ways)).contains(id) || has_way(
                *relation,
                id,
            ),
        forall|id: i64| #[trigger]
            ids_of(*final(ferries)).contains(id) <==> ids_of(*old(ferries)).contains(id) || (ferry
                && has_way(*relation, id)),
        forall|id: i64| #[trigger]
            final(nodes)@.contains(id) <==> old(nodes)@.contains(id) || has_node(*relation, id),
{
    let mut j: usize = 0;
    while j < relation.members.len()
        invariant
            j <= relation.members@.len(),
            forall|id: i64| #[trigger]
                ids_of(*ways).contains(id) <==> ids_of(*old(ways)).contains(id) || exists|m: int|
                    0 <= m < j && (#[trigger] relation.members@[m]).member == OsmId::Way(id),
            forall|id: i64| #[trigger]
                ids_of(*ferries).contains(id) <==> ids_of(*old(ferries)).contains(id) || (ferry
                    && exists|m: int|
                    0 <= m < j && (#[trigger] relation.members@[m]).member == OsmId::Way(id)),
            forall|id: i64| #[trigger]
                nodes@.contains(id) <==> old(nodes)@.contains(id) || exists|m: int|
                    0 <= m < j && (#[trigger] relation.members@[m]).member == OsmId::Node(id),
        decreases relation.members@.len() - j,
    {
        let ghost member = relation.members@[j as int];
        let ghost before = nodes@;
        match relation.members[j].member {
            OsmId::Way(id) => {
                ids_insert(ways, id);
                if ferry {
                    ids_insert(ferries, id);
                }
            },
            OsmId::Node(id) => {
                nodes.push(id);
                proof {
                    lemma_push_contains(before, id);
                }
            },
            _ => {},
        }
        proof {
            assert(relation.members@[j as int].member == member.member);
        }
        j = j + 1;
    }
}

impl IdentifiedResources {
    /// Nothing yet.
    pub fn new() -> (r: Self)
        ensures
            r.pre_relations@ == Seq::<PreRelation>::empty(),
            ids_of(r.ways_in_relations) == Set::<i64>::empty(),
            ids_of(r.ways_in_ferry_relations) == Set::<i64>::empty(),
            r.needed_nodes@ == Seq::<i64>::empty(),
            r.kept_ways@ == Seq::<i64>::empty(),
            ids_of(r.restricted_ways) == Set::<i64>::empty(),
            ids_of(r.restriction_via_nodes) == Set::<i64>::empty(),
    {
        IdentifiedResources {
            pre_relations: Vec::new(),
            ways_in_relations: ids_new(),
            ways_in_ferry_relations: ids_new(),
            needed_nodes: Vec::new(),
            kept_ways: Vec::new(),
            restricted_ways: ids_new(),
            restriction_via_nodes: ids_new(),
        }
    }

    /// Notes the ways and nodes of a relation that restricts turns.
    fn add_restriction(&mut self, relation: &Relation)
        ensures
            final(self).pre_relations == old(self).pre_relations,
            final(self).kept_ways == old(self).kept_ways,
            ids_of(final(self).ways_in_relations) == ids_of(old(self).ways_in_relations),
            ids_of(final(self).ways_in_ferry_relations) == ids_of(
                old(self).ways_in_ferry_relations,
            ),
            forall|id: i64| #[trigger]
                ids_of(final(self).restricted_ways).contains(id) <==> ids_of(
                    old(self).restricted_ways,
                ).contains(id) || has_turn_way(*relation, id),
            forall|id: i64| #[trigger]
                ids_of(final(self).restriction_via_nodes).contains(id) <==> ids_of(
                    old(self).restriction_via_nodes,
                ).contains(id) || has_turn_node(*relation, id),
            forall|id: i64| #[trigger]
                final(self).needed_nodes@.contains(id) <==> old(self).needed_nodes@.contains(id)
                    || has_turn_node(*relation, id),
    {
        let mut j: usize = 0;
        while j < relation.members.len()
            invariant
                j <= relation.members@.len(),
                self.pre_relations == old(self).pre_relations,
                self.kept_ways == old(self).kept_ways,
                ids_of(self.ways_in_relations) == ids_of(old(self).ways_in_relations),
                ids_of(self.ways_in_ferry_relations) == ids_of(old(self).ways_in_ferry_relations),
                forall|id: i64| #[trigger]
                    ids_of(self.restricted_ways).contains(id) <==> ids_of(
                        old(self).restricted_ways,
                    ).contains(id) || exists|m: int|
                        0 <= m < j && #[trigger] turn_way(relation.members@[m], id),
                forall|id: i64| #[trigger]
                    ids_of(self.restriction_via_nodes).contains(id) <==> ids_of(
                        old(self).restriction_via_nodes,
                    ).contains(id) || exists|m: int|
                        0 <= m < j && #[trigger] turn_node(relation.members@[m], id),
                forall|id: i64| #[trigger]
                    self.needed_nodes@.contains(id) <==> old(self).needed_nodes@.contains(id)
                        || exists|m: int|
                        0 <= m < j && #[trigger] turn_node(relation.members@[m], id),
            decreases relation.members@.len() - j,
        {
            let role = relation.members[j].role.as_str();
            let ghost member = relation.members@[j as int];
            let ghost before = self.needed_nodes@;
            match relation.members[j].member {
                OsmId::Way(id) => {
                    if str_eq(role, "from") || str_eq(role, "to") {
                        ids_insert(&mut self.restricted_ways, id);
                        assert(turn_way(member, id));
                    }
                },
                OsmId::Node(id) => {
                    if str_eq(role, "via") {
                        ids_insert(&mut self.restriction_via_nodes, id);
                        self.needed_nodes.push(id);
                        assert(turn_node(member, id));
                        proof {
                            lemma_push_contains(before, id);
                        }
                    }
                },
                _ => {},
            }
            j = j + 1;
        }
    }

    /// Notes the ways and nodes that a relation brings along.
    fn add_members(&mut self, relation: &Relation, ferry: bool)
        ensures
            final(self).pre_relations == old(self).pre_relations,
            final(self).kept_ways == old(self).kept_ways,
            ids_of(final(self).restricted_ways) == ids_of(old(self).restricted_ways),
            ids_of(final(self).restriction_via_nodes) == ids_of(old(self).restriction_via_nodes),
            forall|id: i64| #[trigger]
                ids_of(final(self).ways_in_relations).contains(id) <==> ids_of(
                    old(self).ways_in_relations,
                ).contains(id) || has_way(*relation, id),
            forall|id: i64| #[trigger]
                ids_of(final(self).ways_in_ferry_relations).contains(id) <==> ids_of(
                    old(self).ways_in_ferry_relations,
                ).contains(id) || (ferry && has_way(*relation, id)),
            forall|id: i64| #[trigger]
                final(self).needed_nodes@.contains(id) <==> old(self).needed_nodes@.contains(id)
                    || has_node(*relation, id),
    {
        note_members(
            &mut self.ways_in_relations,
            &mut self.ways_in_ferry_relations,
            &mut self.needed_nodes,
            relation,
            ferry,
        );
    }

    /// Looks at a relation: keeps it if the profile does, with the ways and nodes that it brings along
    /// and the turns that it restricts.
    pub fn add_relation(&mut self, relation: Relation, profile: OsmProfile)
        ensures
            final(self).kept_ways == old(self).kept_ways,
            relation_kept(relation.tags, profile) ==> {
                &&& final(self).pre_relations@.len() == old(self).pre_relations@.len() + 1
                &&& final(self).pre_relations@.drop_last() == old(self).pre_relations@
                &&& same_relation(final(self).pre_relations@.last(), relation)
            },
            !relation_kept(relation.tags, profile) ==> final(self).pre_relations@ == old(
                self,
            ).pre_relations@,
            forall|id: i64| #[trigger]
                ids_of(final(self).ways_in_relations).contains(id) <==> ids_of(
                    old(self).ways_in_relations,
                ).contains(id) || (brings_members(relation, profile) && has_way(relation, id)),
            forall|id: i64| #[trigger]
                ids_of(final(self).ways_in_ferry_relations).contains(id) <==> ids_of(
                    old(self).ways_in_ferry_relations,
                ).contains(id) || (brings_ferry(relation, profile) && has_way(relation, id)),
            forall|id: i64| #[trigger]
                ids_of(final(self).restricted_ways).contains(id) <==> ids_of(
                    old(self).restricted_ways,
                ).contains(id) || (restricts(relation, profile) && has_turn_way(relation, id)),
            forall|id: i64| #[trigger]
                ids_of(final(self).restriction_via_nodes).contains(id) <==> ids_of(
                    old(self).restriction_via_nodes,
                ).contains(id) || (restricts(relation, profile) && has_turn_node(relation, id)),
            forall|id: i64| #[trigger]
                final(self).needed_nodes@.contains(id) <==> old(self).needed_nodes@.contains(id)
                    || needs_node(relation, profile, id),
    {
        let on_roads = match profile {
            OsmProfile::Bus => true,
            OsmProfile::Generic(_) => true,
            _ => false,
        };
        if on_roads && bus_restriction_relation_kept(&relation.tags) {
            self.add_restriction(&relation);
        }
        if !relation_kept_for_profile(&relation.tags, profile) {
            return ;
        }
        if !relation_is_flat(&relation.tags, profile) {
            let ferry = relation.tags.is("route", "ferry");
            self.add_members(&relation, ferry);
        }
        let ghost before = self.pre_relations@;
        self.pre_relations.push(
            PreRelation { id: relation.id, tags: relation.tags, members: relation.members },
        );
        assert(self.pre_relations@.drop_last() =~= before);
    }

    /// Looks at a way: keeps it, with its nodes, if the profile does.
    pub fn add_way(&mut self, way: &Way, profile: OsmProfile, skip_small_roads: bool)
        ensures
            final(self).pre_relations == old(self).pre_relations,
            ids_of(final(self).ways_in_relations) == ids_of(old(self).ways_in_relations),
            ids_of(final(self).ways_in_ferry_relations) == ids_of(
                old(self).ways_in_ferry_relations,
            ),
            ids_of(final(self).restricted_ways) == ids_of(old(self).restricted_ways),
            ids_of(final(self).restriction_via_nodes) == ids_of(old(self).restriction_via_nodes),
            ({
                let kept = keeps_way(
                    *way,
                    profile,
                    skip_small_roads,
                    ids_of(old(self).ways_in_relations),
                    ids_of(old(self).ways_in_ferry_relations),
                );
                &&& final(self).kept_ways@ == (if kept {
                    old(self).kept_ways@.push(way.id)
                } else {
                    old(self).kept_ways@
                })
                &&& final(self).needed_nodes@ == (if kept {
                    old(self).needed_nodes@ + way.nodes@
                } else {
                    old(self).needed_nodes@
                })
            }),
    {
        let member = ids_contains(&self.ways_in_relations, way.id) && !way_dropped_for_profile(
            way,
            profile,
        );
        let kept = way_kept_for_profile(way, profile, &self.ways_in_ferry_relations);
        if skip_small_roads && kept && !member {
            if way.tags.is2("highway", "residential", "service") || way.tags.is(
                "service",
                "driveway",
            ) {
                return ;
            }
        }
        if (!kept && !member) || way.nodes.len() <= 1 {
            return ;
        }
        self.kept_ways.push(way.id);
        let ghost before = self.needed_nodes@;
        self.needed_nodes.extend_from_slice(way.nodes.as_slice());
        assert(self.needed_nodes@ =~= before + way.nodes@);
    }

    /// Sorts the lists and leaves out what occurs twice.
    pub fn finish(&mut self)
        ensures
            final(self).pre_relations == old(self).pre_relations,
            ids_of(final(self).ways_in_relations) == ids_of(old(self).ways_in_relations),
            ids_of(final(self).ways_in_ferry_relations) == ids_of(
                old(self).ways_in_ferry_relations,
            ),
            ids_of(final(self).restricted_ways) == ids_of(old(self).restricted_ways),
            ids_of(final(self).restriction_via_nodes) == ids_of(old(self).restriction_via_nodes),
            final(self).wf(),
            forall|id: i64| #[trigger]
                final(self).needed_nodes@.contains(id) <==> old(self).needed_nodes@.contains(id),
            forall|id: i64| #[trigger]
                final(self).kept_ways@.contains(id) <==> old(self).kept_ways@.contains(id),
    {
        sort_dedup(&mut self.needed_nodes);
        sort_dedup(&mut self.kept_ways);
    }

    /// Whether the lists are sorted and hold nothing twice.
    pub open spec fn wf(&self) -> bool {
        rising(self.needed_nodes@) && rising(self.kept_ways@)
    }
}

proof fn lemma_push_contains(s: Seq<i64>, x: i64)
    ensures
        forall|y: i64| #[trigger] s.push(x).contains(y) <==> s.contains(y) || y == x,
{
    assert forall|y: i64| #[trigger] s.push(x).contains(y) <==> s.contains(y) || y == x by {
        if s.contains(y) {
            let k = choose|k: int| 0 <= k < s.len() && s[k] == y;
            assert(s.push(x)[k] == y);
        }
        if y == x {
            assert(s.push(x)[s.len() as int] == y);
        }
        if s.push(x).contains(y) && y != x {
            let k = choose|k: int| 0 <= k < s.push(x).len() && s.push(x)[k] == y;
            assert(s[k] == y);
        }
    }
}

// All relations and ways of an extract.

/// Whether one of the first `n` relations brings a way along.
pub open spec fn brought_by(rels: Seq<Relation>, n: int, profile: OsmProfile, id: i64) -> bool {
    exists|i: int|
        0 <= i < n && #[trigger] brings_members(rels[i], profile) && has_way(rels[i], id)
}

/// Whether one of the first `n` relations is a ferry route that brings a way along.
pub open spec fn ferried_by(rels: Seq<Relation>, n: int, profile: OsmProfile, id: i64) -> bool {
    exists|i: int| 0 <= i < n && #[trigger] brings_ferry(rels[i], profile) && has_way(rels[i], id)
}

/// Whether one of the first `n` relations restricts a turn that begins or ends on a way.
pub open spec fn restricted_by(rels: Seq<Relation>, n: int, profile: OsmProfile, id: i64) -> bool {
    exists|i: int| 0 <= i < n && #[trigger] restricts(rels[i], profile) && has_turn_way(rels[i], id)
}

/// Whether one of the first `n` relations restricts a turn at a node.
pub open spec fn turned_by(rels: Seq<Relation>, n: int, profile: OsmProfile, id: i64) -> bool {
    exists|i: int| 0 <= i < n && #[trigger] restricts(rels[i], profile) && has_turn_node(rels[i], id)
}

/// Whether one of the first `n` relations needs a node.
pub open spec fn needed_by(rels: Seq<Relation>, n: int, profile: OsmProfile, id: i64) -> bool {
    exists|i: int| 0 <= i < n && #[trigger] needs_node(rels[i], profile, id)
}

/// The relations that are kept, in their order.
pub open spec fn kept_relations(rels: Seq<Relation>, profile: OsmProfile) -> Seq<Relation>
    decreases rels.len(),
{
    if rels.len() == 0 {
        Seq::empty()
    } else {
        let rest = kept_relations(rels.drop_last(), profile);
        if relation_kept(rels.last().tags, profile) {
            rest.push(rels.last())
        } else {
            rest
        }
    }
}

/// Whether a way is kept, given all relations.
pub open spec fn is_kept(
    way: Way,
    rels: Seq<Relation>,
    profile: OsmProfile,
    skip_small_roads: bool,
) -> bool {
    let n = rels.len() as int;
    keeps_way(
        way,
        profile,
        skip_small_roads,
        Set::new(|id: i64| brought_by(rels, n, profile, id)),
        Set::new(|id: i64| ferried_by(rels, n, profile, id)),
    )
}

/// Whether resources are those that a profile needs of an extract, as far as relations go.
pub open spec fn relations_identified(
    res: IdentifiedResources,
    rels: Seq<Relation>,
    profile: OsmProfile,
) -> bool {
    let n = rels.len() as int;
    &&& res.pre_relations@.len() == kept_relations(rels, profile).len()
    &&& forall|i: int|
        #![trigger res.pre_relations@[i]]
        0 <= i < res.pre_relations@.len() ==> same_relation(
            res.pre_relations@[i],
            kept_relations(rels, profile)[i],
        )
    &&& forall|id: i64| #[trigger]
        ids_of(res.ways_in_relations).contains(id) <==> brought_by(rels, n, profile, id)
    &&& forall|id: i64| #[trigger]
        ids_of(res.ways_in_ferry_relations).contains(id) <==> ferried_by(rels, n, profile, id)
    &&& forall|id: i64| #[trigger]
        ids_of(res.restricted_ways).contains(id) <==> restricted_by(rels, n, profile, id)
    &&& forall|id: i64| #[trigger]
        ids_of(res.restriction_via_nodes).contains(id) <==> turned_by(rels, n, profile, id)
}

/// Whether one of the first `k` ways is kept and has this identifier.
pub open spec fn kept_among(
    ways: Seq<Way>,
    k: int,
    rels: Seq<Relation>,
    profile: OsmProfile,
    skip_small_roads: bool,
    id: i64,
) -> bool {
    exists|j: int|
        0 <= j < k && #[trigger] is_kept(ways[j], rels, profile, skip_small_roads) && ways[j].id
            == id
}

/// Whether one of the first `k` ways is kept and has this node.
pub open spec fn node_among(
    ways: Seq<Way>,
    k: int,
    rels: Seq<Relation>,
    profile: OsmProfile,
    skip_small_roads: bool,
    id: i64,
) -> bool {
    exists|j: int|
        0 <= j < k && #[trigger] is_kept(ways[j], rels, profile, skip_small_roads)
            && ways[j].nodes@.contains(id)
}

/// Whether resources are those that a profile needs of an extract.
pub open spec fn identified(
    res: IdentifiedResources,
    rels: Seq<Relation>,
    ways: Seq<Way>,
    profile: OsmProfile,
    skip_small_roads: bool,
) -> bool {
    &&& res.wf()
    &&& relations_identified(res, rels, profile)
    &&& forall|id: i64| #[trigger]
        res.kept_ways@.contains(id) <==> kept_among(
            ways,
            ways.len() as int,
            rels,
            profile,
            skip_small_roads,
            id,
        )
    &&& forall|id: i64| #[trigger]
        res.needed_nodes@.contains(id) <==> needed_by(rels, rels.len() as int, profile, id)
            || node_among(ways, ways.len() as int, rels, profile, skip_small_roads, id)
}

proof fn lemma_one_more(rels: Seq<Relation>, k: int, profile: OsmProfile)
    requires
        0 <= k < rels.len(),
    ensures
        forall|id: i64| #[trigger]
            brought_by(rels, k + 1, profile, id) <==> brought_by(rels, k, profile, id) || (
            brings_members(rels[k], profile) && has_way(rels[k], id)),
        forall|id: i64| #[trigger]
            ferried_by(rels, k + 1, profile, id) <==> ferried_by(rels, k, profile, id) || (
            brings_ferry(rels[k], profile) && has_way(rels[k], id)),
        forall|id: i64| #[trigger]
            restricted_by(rels, k + 1, profile, id) <==> restricted_by(rels, k, profile, id) || (
            restricts(rels[k], profile) && has_turn_way(rels[k], id)),
        forall|id: i64| #[trigger]
            turned_by(rels, k + 1, profile, id) <==> turned_by(rels, k, profile, id) || (restricts(
                rels[k],
                profile,
            ) && has_turn_node(rels[k], id)),
        forall|id: i64| #[trigger]
            needed_by(rels, k + 1, profile, id) <==> needed_by(rels, k, profile, id) || needs_node(
                rels[k],
                profile,
                id,
            ),
{
}

proof fn lemma_prefix(rels: Seq<Relation>, k: int, profile: OsmProfile)
    requires
        0 <= k <= rels.len(),
    ensures
        forall|id: i64| #[trigger]
            brought_by(rels.take(k), k, profile, id) <==> brought_by(rels, k, profile, id),
        forall|id: i64| #[trigger]
            ferried_by(rels.take(k), k, profile, id) <==> ferried_by(rels, k, profile, id),
        forall|id: i64| #[trigger]
            restricted_by(rels.take(k), k, profile, id) <==> restricted_by(rels, k, profile, id),
        forall|id: i64| #[trigger]
            turned_by(rels.take(k), k, profile, id) <==> turned_by(rels, k, profile, id),
{
    let t = rels.take(k);
    assert forall|id: i64| #[trigger] brought_by(t, k, profile, id) <==> brought_by(
        rels,
        k,
        profile,
        id,
    ) by {
        if brought_by(rels, k, profile, id) {
            let i = choose|i: int|
                0 <= i < k && #[trigger] brings_members(rels[i], profile) && has_way(rels[i], id);
            assert(brings_members(t[i], profile));
        }
        if brought_by(t, k, profile, id) {
            let i = choose|i: int|
                0 <= i < k && #[trigger] brings_members(t[i], profile) && has_way(t[i], id);
            assert(brings_members(rels[i], profile));
        }
    }
    assert forall|id: i64| #[trigger] ferried_by(t, k, profile, id) <==> ferried_by(
        rels,
        k,
        profile,
        id,
    ) by {
        if ferried_by(rels, k, profile, id) {
            let i = choose|i: int|
                0 <= i < k && #[trigger] brings_ferry(rels[i], profile) && has_way(rels[i], id);
            assert(brings_ferry(t[i], profile));
        }
        if ferried_by(t, k, profile, id) {
            let i = choose|i: int|
                0 <= i < k && #[trigger] brings_ferry(t[i], profile) && has_way(t[i], id);
            assert(brings_ferry(rels[i], profile));
        }
    }
    assert forall|id: i64| #[trigger] restricted_by(t, k, profile, id) <==> restricted_by(
        rels,
        k,
        profile,
        id,
    ) by {
        if restricted_by(rels, k, profile, id) {
            let i = choose|i: int|
                0 <= i < k && #[trigger] restricts(rels[i], profile) && has_turn_way(rels[i], id);
            assert(restricts(t[i], profile));
        }
        if restricted_by(t, k, profile, id) {
            let i = choose|i: int|
                0 <= i < k && #[trigger] restricts(t[i], profile) && has_turn_way(t[i], id);
            assert(restricts(rels[i], profile));
        }
    }
    assert forall|id: i64| #[trigger] turned_by(t, k, profile, id) <==> turned_by(
        rels,
        k,
        profile,
        id,
    ) by {
        if turned_by(rels, k, profile, id) {
            let i = choose|i: int|
                0 <= i < k && #[trigger] restricts(rels[i], profile) && has_turn_node(rels[i], id);
            assert(restricts(t[i], profile));
        }
        if turned_by(t, k, profile, id) {
            let i = choose|i: int|
                0 <= i < k && #[trigger] restricts(t[i], profile) && has_turn_node(t[i], id);
            assert(restricts(rels[i], profile));
        }
    }
}

/// Looks at all relations.
fn add_relations(relations: Vec<Relation>, profile: OsmProfile) -> (res: IdentifiedResources)
    ensures
        relations_identified(res, relations@, profile),
        res.kept_ways@ == Seq::<i64>::empty(),
        forall|id: i64| #[trigger]
            res.needed_nodes@.contains(id) <==> needed_by(
                relations@,
                relations@.len() as int,
                profile,
                id,
            ),
{
    let ghost rels = relations@;
    let mut res = IdentifiedResources::new();
    let ghost mut k: int = 0;
    assert(rels.take(0) =~= Seq::<Relation>::empty());
    for relation in it: relations.into_iter()
        invariant
            it.seq() == rels,
            k == it.index(),
            res.kept_ways@ == Seq::<i64>::empty(),
            relations_identified(res, rels.take(k), profile),
            forall|id: i64| #[trigger]
                res.needed_nodes@.contains(id) <==> needed_by(rels, k, profile, id),
    {
        let ghost res0 = res;
        let ghost r = relation;
        res.add_relation(relation, profile);
        proof {
            let t = rels.take(k);
            let t1 = rels.take(k + 1);
            assert(r == rels[k]);
            assert(t1.drop_last() =~= t);
            assert(t1.last() == r);
            lemma_one_more(rels, k, profile);
            lemma_prefix(rels, k, profile);
            lemma_prefix(rels, k + 1, profile);
            assert forall|i: int|
                #![trigger res.pre_relations@[i]]
                0 <= i < res.pre_relations@.len() implies same_relation(
                res.pre_relations@[i],
                kept_relations(t1, profile)[i],
            ) by {
                if i < res0.pre_relations@.len() {
                    assert(res.pre_relations@[i] == res0.pre_relations@[i]);
                }
            }
            k = k + 1;
        }
    }
    assert(rels.take(k) =~= rels);
    res
}

/// Finds what a profile needs of an extract.
pub fn identify_resources_for_profile(
    relations: Vec<Relation>,
    ways: &Vec<Way>,
    profile: OsmProfile,
    skip_small_roads: bool,
) -> (res: IdentifiedResources)
    ensures
        identified(res, relations@, ways@, profile, skip_small_roads),
{
    let ghost rels = relations@;
    let mut res = add_relations(relations, profile);
    let ghost brought = Set::new(|id: i64| brought_by(rels, rels.len() as int, profile, id));
    let ghost ferried = Set::new(|id: i64| ferried_by(rels, rels.len() as int, profile, id));
    assert(ids_of(res.ways_in_relations) =~= brought);
    assert(ids_of(res.ways_in_ferry_relations) =~= ferried);
    let mut k: usize = 0;
    while k < ways.len()
        invariant
            k <= ways@.len(),
            brought == Set::new(|id: i64| brought_by(rels, rels.len() as int, profile, id)),
            ferried == Set::new(|id: i64| ferried_by(rels, rels.len() as int, profile, id)),
            ids_of(res.ways_in_relations) == brought,
            ids_of(res.ways_in_ferry_relations) == ferried,
            relations_identified(res, rels, profile),
            forall|id: i64| #[trigger]
                res.kept_ways@.contains(id) <==> kept_among(
                    ways@,
                    k as int,
                    rels,
                    profile,
                    skip_small_roads,
                    id,
                ),
            forall|id: i64| #[trigger]
                res.needed_nodes@.contains(id) <==> needed_by(rels, rels.len() as int, profile, id)
                    || node_among(ways@, k as int, rels, profile, skip_small_roads, id),
        decreases ways@.len() - k,
    {
        let ghost res0 = res;
        res.add_way(&ways[k], profile, skip_small_roads);
        proof {
            let way = ways@[k as int];
            let kept = is_kept(way, rels, profile, skip_small_roads);
            assert(kept == keeps_way(way, profile, skip_small_roads, brought, ferried));
            if kept {
                lemma_push_contains(res0.kept_ways@, way.id);
                lemma_concat_contains(res0.needed_nodes@, way.nodes@);
            }
            assert forall|id: i64| #[trigger] res.kept_ways@.contains(id) <==> kept_among(
                ways@,
                k + 1,
                rels,
                profile,
                skip_small_roads,
                id,
            ) by {
                assert(res0.kept_ways@.contains(id) <==> kept_among(
                    ways@,
                    k as int,
                    rels,
                    profile,
                    skip_small_roads,
                    id,
                ));
                if kept && way.id == id {
                    assert(is_kept(ways@[k as int], rels, profile, skip_small_roads));
                }
            }
            assert forall|id: i64| #[trigger] res.needed_nodes@.contains(id) <==> needed_by(
                rels,
                rels.len() as int,
                profile,
                id,
            ) || node_among(ways@, k + 1, rels, profile, skip_small_roads, id) by {
                assert(res0.needed_nodes@.contains(id) <==> needed_by(
                    rels,
                    rels.len() as int,
                    profile,
                    id,
                ) || node_among(ways@, k as int, rels, profile, skip_small_roads, id));
                if kept && way.nodes@.contains(id) {
                    assert(is_kept(ways@[k as int], rels, profile, skip_small_roads));
                }
            }
        }
        k = k + 1;
    }
    res.finish();
    res
}

pub(crate) proof fn lemma_concat_contains(a: Seq<i64>, b: Seq<i64>)
    ensures
        forall|x: i64| #[trigger] (a + b).contains(x) <==> a.contains(x) || b.contains(x),
{
    assert forall|x: i64| #[trigger] (a + b).contains(x) <==> a.contains(x) || b.contains(x) by {
        if a.contains(x) {
            let k = choose|k: int| 0 <= k < a.len() && a[k] == x;
            assert((a + b)[k] == x);
        }
        if b.contains(x) {
            let k = choose|k: int| 0 <= k < b.len() && b[k] == x;
            assert((a + b)[a.len() + k] == x);
        }
        if (a + b).contains(x) {
            let k = choose|k: int| 0 <= k < (a + b).len() && (a + b)[k] == x;
            if k < a.len() {
                assert(a[k] == x);
            } else {
                assert(b[k - a.len()] == x);
            }
        }
    }
}

/// The relations that are kept are all that the profile keeps, in their order.
pub proof fn lemma_kept_relations(rels: Seq<Relation>, profile: OsmProfile)
    ensures
        kept_relations(rels, profile) == rels.filter(|r: Relation| relation_kept(r.tags, profile)),
    decreases rels.len(),
{
    reveal(Seq::filter);
    if rels.len() > 0 {
        lemma_kept_relations(rels.drop_last(), profile);
    }
}

} // verus!
