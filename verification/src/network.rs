//! What a network for all modes needs of a map extract, and the lines that use its ways.

use crate::edge_attrs::{
    add_line, find_line, has_line, is_line_list, lemma_lines_differ, NamedLine,
};
use crate::graph::ascending;
use crate::hashed::{ids_contains, ids_new, ids_of, lists_new, IdLists, IdSet};
use crate::id_list::{rising, sort_dedup};
use crate::lines::{
    covers, lemma_ascending_unique, line_of, list_members, listed, sorted_list, value_of,
};
use crate::osm::{Relation, Way};
use crate::osm_load::{is_infrastructure_tagged, is_platform_tagged, OsmBuilder};
use crate::resources::{
    has_node, has_way, lemma_concat_contains, note_members, same_relation, small_road, PreRelation,
};
use crate::tags::Tags;
use vstd::prelude::*;

verus! {

/// What a network needs of a map extract.
pub struct NetworkResources {
    /// The relations of routes and stops, in their order.
    pub pre_relations: Vec<PreRelation>,
    /// The ways of these relations.
    pub ways_in_relations: IdSet,
    /// The ways of those that are ferry routes.
    pub ways_in_ferry_relations: IdSet,
    /// The nodes that are needed.
    pub needed_nodes: Vec<i64>,
}

/// Whether a relation belongs to public transport.
pub open spec fn is_public(r: Relation) -> bool {
    r.tags.val("route"@) is Some || r.tags.val("public_transport"@) is Some
}

/// The relations that belong to public transport, in their order.
pub open spec fn public_relations(rels: Seq<Relation>) -> Seq<Relation>
    decreases rels.len(),
{
    if rels.len() == 0 {
        Seq::empty()
    } else if is_public(rels.last()) {
        public_relations(rels.drop_last()).push(rels.last())
    } else {
        public_relations(rels.drop_last())
    }
}

/// Whether one of the first `n` relations belongs to public transport and has this way.
pub open spec fn way_public(rels: Seq<Relation>, n: int, id: i64) -> bool {
    exists|i: int| 0 <= i < n && is_public(rels[i]) && #[trigger] has_way(rels[i], id)
}

/// Whether one of the first `n` relations is a ferry route and has this way.
pub open spec fn way_ferried(rels: Seq<Relation>, n: int, id: i64) -> bool {
    exists|i: int|
        0 <= i < n && rels[i].tags.has("route"@, "ferry"@) && #[trigger] has_way(rels[i], id)
}

/// Whether one of the first `n` relations belongs to public transport and has this node.
pub open spec fn node_public(rels: Seq<Relation>, n: int, id: i64) -> bool {
    exists|i: int| 0 <= i < n && is_public(rels[i]) && #[trigger] has_node(rels[i], id)
}

/// Whether a way belongs to a relation and is no platform.
pub open spec fn is_member(w: Way, res: NetworkResources) -> bool {
    ids_of(res.ways_in_relations).contains(w.id) && !is_platform_tagged(w.tags)
}

/// Whether a way is a track, a road, a ferry or an aerialway.
pub open spec fn is_infra(w: Way, res: NetworkResources) -> bool {
    is_infrastructure_tagged(w.tags) || ids_of(res.ways_in_ferry_relations).contains(w.id)
}

/// Whether the nodes of a way are needed.
pub open spec fn needs_way(w: Way, res: NetworkResources, skip_small_roads: bool) -> bool {
    &&& w.nodes@.len() > 1
    &&& is_member(w, res) || (is_infra(w, res) && !(skip_small_roads && small_road(w.tags)))
}

/// Whether one of the first `n` ways is needed and has this node.
pub open spec fn node_on_way(
    ways: Seq<Way>,
    n: int,
    res: NetworkResources,
    skip_small_roads: bool,
    id: i64,
) -> bool {
    exists|i: int|
        0 <= i < n && #[trigger] needs_way(ways[i], res, skip_small_roads)
            && ways[i].nodes@.contains(id)
}

/// Whether the relations, and the ways and nodes that they bring along, are those of an extract.
pub open spec fn relations_noted(res: NetworkResources, rels: Seq<Relation>) -> bool {
    let n = rels.len() as int;
    &&& res.pre_relations@.len() == public_relations(rels).len()
    &&& forall|i: int|
        #![trigger res.pre_relations@[i]]
        0 <= i < res.pre_relations@.len() ==> same_relation(
            res.pre_relations@[i],
            public_relations(rels)[i],
        )
    &&& forall|id: i64| #[trigger]
        ids_of(res.ways_in_relations).contains(id) <==> way_public(rels, n, id)
    &&& forall|id: i64| #[trigger]
        ids_of(res.ways_in_ferry_relations).contains(id) <==> way_ferried(rels, n, id)
}

/// Whether resources are those that a network needs of an extract.
pub open spec fn network_identified(
    res: NetworkResources,
    rels: Seq<Relation>,
    ways: Seq<Way>,
    skip_small_roads: bool,
) -> bool {
    &&& relations_noted(res, rels)
    &&& rising(res.needed_nodes@)
    &&& forall|id: i64| #[trigger]
        res.needed_nodes@.contains(id) <==> node_public(rels, rels.len() as int, id)
            || node_on_way(ways, ways.len() as int, res, skip_small_roads, id)
}

proof fn lemma_next_relation(rels: Seq<Relation>, k: int)
    requires
        0 <= k < rels.len(),
    ensures
        forall|id: i64| #[trigger]
            way_public(rels, k + 1, id) <==> way_public(rels, k, id) || (is_public(rels[k])
                && has_way(rels[k], id)),
        forall|id: i64| #[trigger]
            way_ferried(rels, k + 1, id) <==> way_ferried(rels, k, id) || (rels[k].tags.has(
                "route"@,
                "ferry"@,
            ) && has_way(rels[k], id)),
        forall|id: i64| #[trigger]
            node_public(rels, k + 1, id) <==> node_public(rels, k, id) || (is_public(rels[k])
                && has_node(rels[k], id)),
{
}

/// Relations that were looked at before do not change what the first ones are.
proof fn lemma_first_relations(rels: Seq<Relation>, more: Seq<Relation>, n: int)
    requires
        0 <= n <= rels.len(),
        n <= more.len(),
        rels.take(n) == more.take(n),
    ensures
        forall|id: i64| #[trigger] way_public(rels, n, id) <==> way_public(more, n, id),
        forall|id: i64| #[trigger] way_ferried(rels, n, id) <==> way_ferried(more, n, id),
        forall|id: i64| #[trigger] node_public(rels, n, id) <==> node_public(more, n, id),
{
    assert forall|i: int| 0 <= i < n implies #[trigger] rels[i] == more[i] by {
        assert(rels.take(n)[i] == rels[i] && more.take(n)[i] == more[i]);
    }
    assert forall|id: i64| #[trigger] way_public(rels, n, id) <==> way_public(more, n, id) by {
        if way_public(rels, n, id) {
            let i = choose|i: int| 0 <= i < n && is_public(rels[i]) && #[trigger] has_way(rels[i], id);
            assert(has_way(more[i], id));
        }
        if way_public(more, n, id) {
            let i = choose|i: int| 0 <= i < n && is_public(more[i]) && #[trigger] has_way(more[i], id);
            assert(has_way(rels[i], id));
        }
    }
    assert forall|id: i64| #[trigger] way_ferried(rels, n, id) <==> way_ferried(more, n, id) by {
        if way_ferried(rels, n, id) {
            let i = choose|i: int|
                0 <= i < n && rels[i].tags.has("route"@, "ferry"@) && #[trigger] has_way(rels[i], id);
            assert(has_way(more[i], id));
        }
        if way_ferried(more, n, id) {
            let i = choose|i: int|
                0 <= i < n && more[i].tags.has("route"@, "ferry"@) && #[trigger] has_way(more[i], id);
            assert(has_way(rels[i], id));
        }
    }
    assert forall|id: i64| #[trigger] node_public(rels, n, id) <==> node_public(more, n, id) by {
        if node_public(rels, n, id) {
            let i = choose|i: int| 0 <= i < n && is_public(rels[i]) && #[trigger] has_node(rels[i], id);
            assert(has_node(more[i], id));
        }
        if node_public(more, n, id) {
            let i = choose|i: int| 0 <= i < n && is_public(more[i]) && #[trigger] has_node(more[i], id);
            assert(has_node(rels[i], id));
        }
    }
}

impl NetworkResources {
    /// Nothing yet.
    pub fn new() -> (r: Self)
        ensures
            r.pre_relations@ == Seq::<PreRelation>::empty(),
            ids_of(r.ways_in_relations) == Set::<i64>::empty(),
            ids_of(r.ways_in_ferry_relations) == Set::<i64>::empty(),
            r.needed_nodes@ == Seq::<i64>::empty(),
    {
        NetworkResources {
            pre_relations: Vec::new(),
            ways_in_relations: ids_new(),
            ways_in_ferry_relations: ids_new(),
            needed_nodes: Vec::new(),
        }
    }

    /// Looks at a relation: keeps it, with the ways and nodes that it has, if it belongs to public transport.
    pub fn add_relation(&mut self, relation: Relation)
        ensures
            is_public(relation) ==> {
                &&& final(self).pre_relations@.len() == old(self).pre_relations@.len() + 1
                &&& final(self).pre_relations@.drop_last() == old(self).pre_relations@
                &&& same_relation(final(self).pre_relations@.last(), relation)
            },
            !is_public(relation) ==> final(self).pre_relations@ == old(self).pre_relations@,
            forall|id: i64| #[trigger]
                ids_of(final(self).ways_in_relations).contains(id) <==> ids_of(
                    old(self).ways_in_relations,
                ).contains(id) || (is_public(relation) && has_way(relation, id)),
            forall|id: i64| #[trigger]
                ids_of(final(self).ways_in_ferry_relations).contains(id) <==> ids_of(
                    old(self).ways_in_ferry_relations,
                ).contains(id) || (relation.tags.has("route"@, "ferry"@) && has_way(relation, id)),
            forall|id: i64| #[trigger]
                final(self).needed_nodes@.contains(id) <==> old(self).needed_nodes@.contains(id) || (
                is_public(relation) && has_node(relation, id)),
    {
        if !relation.tags.contains_key("route") && !relation.tags.contains_key("public_transport") {
            return ;
        }
        let ferry = relation.tags.is("route", "ferry");
        note_members(
            &mut self.ways_in_relations,
            &mut self.ways_in_ferry_relations,
            &mut self.needed_nodes,
            &relation,
            ferry,
        );
        let ghost before = self.pre_relations@;
        self.pre_relations.push(
            PreRelation { id: relation.id, tags: relation.tags, members: relation.members },
        );
        assert(self.pre_relations@.drop_last() =~= before);
    }

    /// Looks at a way: its nodes are needed if it is.
    pub fn add_way(&mut self, way: &Way, skip_small_roads: bool)
        ensures
            final(self).pre_relations == old(self).pre_relations,
            final(self).ways_in_relations == old(self).ways_in_relations,
            final(self).ways_in_ferry_relations == old(self).ways_in_ferry_relations,
            final(self).needed_nodes@ == (if needs_way(*way, *old(self), skip_small_roads) {
                old(self).needed_nodes@ + way.nodes@
            } else {
                old(self).needed_nodes@
            }),
    {
        let infra = OsmBuilder::is_infrastructure(way) || ids_contains(
            &self.ways_in_ferry_relations,
            way.id,
        );
        let member = ids_contains(&self.ways_in_relations, way.id) && !OsmBuilder::is_platform(way);
        if skip_small_roads && infra && !member {
            if way.tags.is2("highway", "residential", "service") || way.tags.is(
                "service",
                "driveway",
            ) {
                return ;
            }
        }
        if (infra || member) && OsmBuilder::is_valid_way(way) {
            let ghost before = self.needed_nodes@;
            self.needed_nodes.extend_from_slice(way.nodes.as_slice());
            assert(self.needed_nodes@ =~= before + way.nodes@);
        }
    }
}

fn note_relations(relations: Vec<Relation>) -> (res: NetworkResources)
    ensures
        relations_noted(res, relations@),
        forall|id: i64| #[trigger]
            res.needed_nodes@.contains(id) <==> node_public(
                relations@,
                relations@.len() as int,
                id,
            ),
{
    let ghost rels = relations@;
    let mut res = NetworkResources::new();
    let ghost mut k: int = 0;
    assert(rels.take(0) =~= Seq::<Relation>::empty());
    for relation in it: relations.into_iter()
        invariant
            it.seq() == rels,
            k == it.index(),
            relations_noted(res, rels.take(k)),
            forall|id: i64| #[trigger]
                res.needed_nodes@.contains(id) <==> node_public(rels, k, id),
    {
        let ghost pre0 = res.pre_relations@;
        let ghost r = relation;
        res.add_relation(relation);
        proof {
            let t0 = rels.take(k);
            let t1 = rels.take(k + 1);
            assert(r == rels[k]);
            assert(t1.drop_last() =~= t0);
            assert(t1.last() == r);
            lemma_next_relation(rels, k);
            assert(t0.take(k) =~= rels.take(k));
            assert(t1.take(k + 1) =~= rels.take(k + 1));
            lemma_first_relations(t0, rels, k);
            lemma_first_relations(t1, rels, k + 1);
            let pre1 = res.pre_relations@;
            assert forall|i: int| #![trigger pre1[i]] 0 <= i < pre1.len() implies same_relation(
                pre1[i],
                public_relations(t1)[i],
            ) by {
                if i < pre0.len() {
                    if is_public(r) {
                        assert(pre1.drop_last()[i] == pre0[i]);
                    }
                    assert(pre1[i] == pre0[i]);
                    assert(same_relation(pre0[i], public_relations(t0)[i]));
                }
            }
            k = k + 1;
        }
    }
    assert(rels.take(k) =~= rels);
    res
}

proof fn lemma_resources_alike(a: NetworkResources, b: NetworkResources, w: Way, skip: bool)
    requires
        a.ways_in_relations == b.ways_in_relations,
        a.ways_in_ferry_relations == b.ways_in_ferry_relations,
    ensures
        needs_way(w, a, skip) == needs_way(w, b, skip),
{
}

impl OsmBuilder {
    /// Finds what a network needs of an extract: the relations of public transport, and the nodes of these
    /// and of the ways that are used.
    pub fn identify_resources(
        relations: Vec<Relation>,
        ways: &Vec<Way>,
        skip_small_roads: bool,
    ) -> (res: NetworkResources)
        ensures
            network_identified(res, relations@, ways@, skip_small_roads),
    {
        let ghost rels = relations@;
        let mut res = note_relations(relations);
        let ghost res0 = res;
        let mut k: usize = 0;
        while k < ways.len()
            invariant
                k <= ways@.len(),
                res.pre_relations == res0.pre_relations,
                res.ways_in_relations == res0.ways_in_relations,
                res.ways_in_ferry_relations == res0.ways_in_ferry_relations,
                forall|id: i64| #[trigger]
                    res0.needed_nodes@.contains(id) <==> node_public(rels, rels.len() as int, id),
                forall|id: i64| #[trigger]
                    res.needed_nodes@.contains(id) <==> res0.needed_nodes@.contains(id)
                        || node_on_way(ways@, k as int, res0, skip_small_roads, id),
            decreases ways@.len() - k,
        {
            let ghost before = res;
            res.add_way(&ways[k], skip_small_roads);
            proof {
                let w = ways@[k as int];
                lemma_resources_alike(before, res0, w, skip_small_roads);
                lemma_concat_contains(before.needed_nodes@, w.nodes@);
                assert forall|id: i64| #[trigger] res.needed_nodes@.contains(id)
                    <==> res0.needed_nodes@.contains(id) || node_on_way(
                    ways@,
                    k + 1,
                    res0,
                    skip_small_roads,
                    id,
                ) by {
                    assert(node_on_way(ways@, k + 1, res0, skip_small_roads, id) <==> node_on_way(
                        ways@,
                        k as int,
                        res0,
                        skip_small_roads,
                        id,
                    ) || (needs_way(w, res0, skip_small_roads) && w.nodes@.contains(id)));
                }
            }
            k = k + 1;
        }
        let ghost res1 = res;
        sort_dedup(&mut res.needed_nodes);
        proof {
            assert forall|id: i64| #[trigger] res.needed_nodes@.contains(id) <==> node_public(
                rels,
                rels.len() as int,
                id,
            ) || node_on_way(ways@, ways@.len() as int, res, skip_small_roads, id) by {
                assert(res.needed_nodes@.contains(id) <==> res1.needed_nodes@.contains(id));
                assert(node_on_way(ways@, ways@.len() as int, res, skip_small_roads, id)
                    <==> node_on_way(ways@, ways@.len() as int, res0, skip_small_roads, id)) by {
                    assert forall|i: int| 0 <= i < ways@.len() implies #[trigger] needs_way(
                        ways@[i],
                        res,
                        skip_small_roads,
                    ) == needs_way(ways@[i], res0, skip_small_roads) by {
                        lemma_resources_alike(res, res0, ways@[i], skip_small_roads);
                    }
                    if node_on_way(ways@, ways@.len() as int, res0, skip_small_roads, id) {
                        let i = choose|i: int|
                            0 <= i < ways@.len() && #[trigger] needs_way(
                                ways@[i],
                                res0,
                                skip_small_roads,
                            ) && ways@[i].nodes@.contains(id);
                        assert(needs_way(ways@[i], res, skip_small_roads));
                    }
                }
            }
        }
        res
    }
}

/// What a route is called, if it has a name or a start: its reference or else its name, its ends, and who
/// runs it.
pub open spec fn route_names(t: Tags) -> Option<Seq<Seq<char>>> {
    let l = line_of(t);
    if l.0.len() > 0 || l.1.len() > 0 {
        Some(
            match t.val("operator"@) {
                Some(o) => seq![l.0, l.1, l.2].push(o),
                None => seq![l.0, l.1, l.2],
            },
        )
    } else {
        None
    }
}

/// What a route is called.
pub fn named_line(tags: &Tags) -> (r: Option<NamedLine>)
    ensures
        route_names(*tags) == (match r {
            Some(l) => Some(l@),
            None => None,
        }),
{
    let short_name = match tags.get("ref") {
        Some(v) => v.clone(),
        None => value_of(tags, "name"),
    };
    let from_str = value_of(tags, "from");
    let to_str = value_of(tags, "to");
    if short_name.as_str().unicode_len() == 0 && from_str.as_str().unicode_len() == 0 {
        return None;
    }
    let operator = match tags.get("operator") {
        Some(v) => Some(v.clone()),
        None => None,
    };
    Some(NamedLine { short_name, from_str, to_str, operator })
}

/// Whether one of the first `n` relations is called so.
pub open spec fn is_named(rels: Seq<PreRelation>, n: int, names: Seq<Seq<char>>) -> bool {
    exists|i: int| 0 <= i < n && route_names((#[trigger] rels[i]).tags) == Some(names)
}

/// Whether a list holds the lines of the first `n` relations, each once and in their order.
pub open spec fn lists_lines(lines: Seq<NamedLine>, rels: Seq<PreRelation>, n: int) -> bool {
    &&& is_line_list(lines)
    &&& forall|names: Seq<Seq<char>>| #[trigger] has_line(lines, names) <==> is_named(rels, n, names)
}

pub(crate) fn collect_lines(rels: &Vec<PreRelation>) -> (lines: Vec<NamedLine>)
    ensures
        lists_lines(lines@, rels@, rels@.len() as int),
        lines@.len() <= rels@.len(),
{
    let mut lines: Vec<NamedLine> = Vec::new();
    let mut i: usize = 0;
    while i < rels.len()
        invariant
            i <= rels@.len(),
            lists_lines(lines@, rels@, i as int),
            lines@.len() <= i,
        decreases rels@.len() - i,
    {
        let ghost before = lines@;
        match named_line(&rels[i].tags) {
            Some(info) => {
                let ghost new = info;
                add_line(&mut lines, info);
                proof {
                    assert forall|names: Seq<Seq<char>>| #[trigger] has_line(lines@, names)
                        <==> is_named(rels@, i + 1, names) by {
                        lemma_line_added(before, lines@, new, names);
                        assert(has_line(before, names) <==> is_named(rels@, i as int, names));
                        assert(route_names(rels@[i as int].tags) == Some(new@));
                    }
                }
            },
            None => {
                assert forall|names: Seq<Seq<char>>| #[trigger] has_line(lines@, names) <==> is_named(
                    rels@,
                    i + 1,
                    names,
                ) by {
                    assert(has_line(before, names) <==> is_named(rels@, i as int, names));
                }
            },
        }
        i = i + 1;
    }
    lines
}

proof fn lemma_line_added(
    before: Seq<NamedLine>,
    after: Seq<NamedLine>,
    new: NamedLine,
    names: Seq<Seq<char>>,
)
    requires
        has_line(before, new@) ==> after == before,
        !has_line(before, new@) ==> exists|p: int| #[trigger]
            before.insert(p, new) == after && 0 <= p <= before.len(),
    ensures
        has_line(after, names) <==> has_line(before, names) || names == new@,
{
    if !has_line(before, new@) {
        let p = choose|p: int| #[trigger] before.insert(p, new) == after && 0 <= p <= before.len();
        assert(after[p] == new);
        if has_line(before, names) {
            let i = choose|i: int| 0 <= i < before.len() && (#[trigger] before[i])@ == names;
            if i < p {
                assert(after[i] == before[i]);
            } else {
                assert(after[i + 1] == before[i]);
            }
        }
        if has_line(after, names) {
            let i = choose|i: int| 0 <= i < after.len() && (#[trigger] after[i])@ == names;
            if i < p {
                assert(after[i] == before[i]);
            } else if i > p {
                assert(after[i] == before[i - 1]);
            }
        }
    }
}

/// Whether a line uses a way: one of the first `n` relations is called so and has the way.
pub open spec fn names_use(rels: Seq<PreRelation>, n: int, names: Seq<Seq<char>>, id: i64) -> bool {
    exists|i: int|
        0 <= i < n && #[trigger] covers(rels[i], id) && route_names(rels[i].tags) == Some(names)
}

/// The numbers, among the first `n` lines, of those that use a way.
pub open spec fn line_numbers(
    rels: Seq<PreRelation>,
    lines: Seq<NamedLine>,
    id: i64,
    n: int,
) -> Seq<u32>
    decreases n,
{
    if n <= 0 {
        Seq::empty()
    } else if names_use(rels, rels.len() as int, lines[n - 1]@, id) {
        line_numbers(rels, lines, id, n - 1).push((n - 1) as u32)
    } else {
        line_numbers(rels, lines, id, n - 1)
    }
}

/// The numbers of the lines that use a way, ascending.
pub open spec fn numbers_of_way(rels: Seq<PreRelation>, lines: Seq<NamedLine>, id: i64) -> Seq<u32> {
    line_numbers(rels, lines, id, lines.len() as int)
}

proof fn lemma_line_numbers(rels: Seq<PreRelation>, lines: Seq<NamedLine>, id: i64, n: int)
    requires
        0 <= n <= lines.len(),
        n <= u32::MAX + 1,
    ensures
        ascending(line_numbers(rels, lines, id, n)),
        forall|x: u32| #[trigger]
            line_numbers(rels, lines, id, n).contains(x) <==> x < n && names_use(
                rels,
                rels.len() as int,
                lines[x as int]@,
                id,
            ),
    decreases n,
{
    if n > 0 {
        lemma_line_numbers(rels, lines, id, n - 1);
        let rest = line_numbers(rels, lines, id, n - 1);
        let all = line_numbers(rels, lines, id, n);
        let last = (n - 1) as u32;
        assert forall|i: int| 0 <= i < rest.len() implies #[trigger] rest[i] < last by {
            assert(rest.contains(rest[i]));
        }
        assert forall|x: u32| #[trigger] all.contains(x) <==> x < n && names_use(
            rels,
            rels.len() as int,
            lines[x as int]@,
            id,
        ) by {
            if rest.contains(x) {
                let k = choose|k: int| 0 <= k < rest.len() && rest[k] == x;
                assert(all[k] == x);
            }
            if x == last && names_use(rels, rels.len() as int, lines[n - 1]@, id) {
                assert(all[rest.len() as int] == x);
            }
            if all.contains(x) {
                let k = choose|k: int| 0 <= k < all.len() && all[k] == x;
                if k < rest.len() {
                    assert(rest[k] == x);
                    assert(rest.contains(x));
                }
            }
        }
    }
}

/// Whether lists hold, for every way, the numbers of the lines that use it.
pub open spec fn lists_ways(
    m: IdLists,
    rels: Seq<PreRelation>,
    n: int,
    lines: Seq<NamedLine>,
) -> bool {
    forall|id: i64, x: u32| #[trigger]
        listed(m, id, x) <==> x < lines.len() && names_use(rels, n, lines[x as int]@, id)
}

pub(crate) fn list_ways(rels: &Vec<PreRelation>, lines: &Vec<NamedLine>) -> (m: IdLists)
    requires
        lists_lines(lines@, rels@, rels@.len() as int),
        lines@.len() <= u32::MAX + 1,
    ensures
        lists_ways(m, rels@, rels@.len() as int, lines@),
{
    let mut m = lists_new();
    let mut i: usize = 0;
    while i < rels.len()
        invariant
            i <= rels@.len(),
            lists_lines(lines@, rels@, rels@.len() as int),
            lines@.len() <= u32::MAX + 1,
            lists_ways(m, rels@, i as int, lines@),
        decreases rels@.len() - i,
    {
        let ghost m0 = m;
        let ghost rel = rels@[i as int];
        proof {
            assert forall|names: Seq<Seq<char>>, id: i64| #[trigger]
                names_use(rels@, i + 1, names, id) <==> names_use(rels@, i as int, names, id) || (
            covers(rel, id) && route_names(rel.tags) == Some(names)) by {
                if covers(rel, id) && route_names(rel.tags) == Some(names) {
                    assert(covers(rels@[i as int], id));
                }
            }
        }
        if let Some(info) = named_line(&rels[i].tags) {
            let found = find_line(lines, &info);
            assert(is_named(rels@, rels@.len() as int, info@));
            assert(has_line(lines@, info@));
            if let Some(p) = found {
                list_members(&mut m, &rels[i].members, p as u32, Ghost(rel));
                proof {
                    assert forall|id: i64, x: u32| #[trigger] listed(m, id, x) <==> x < lines@.len()
                        && names_use(rels@, i + 1, lines@[x as int]@, id) by {
                        assert(listed(m0, id, x) <==> x < lines@.len() && names_use(
                            rels@,
                            i as int,
                            lines@[x as int]@,
                            id,
                        ));
                        if x < lines@.len() && lines@[x as int]@ == info@ {
                            lemma_lines_differ(lines@, x as int, p as int);
                        }
                    }
                }
            }
        }
        i = i + 1;
    }
    m
}

pub(crate) fn numbers_for_way(
    m: &IdLists,
    id: i64,
    Ghost(rels): Ghost<Seq<PreRelation>>,
    Ghost(lines): Ghost<Seq<NamedLine>>,
) -> (r: Vec<u32>)
    requires
        lists_ways(*m, rels, rels.len() as int, lines),
        lines.len() <= u32::MAX + 1,
    ensures
        r@ == numbers_of_way(rels, lines, id),
{
    let r = sorted_list(m, id);
    proof {
        lemma_line_numbers(rels, lines, id, lines.len() as int);
        let s = numbers_of_way(rels, lines, id);
        assert forall|x: u32| r@.contains(x) <==> s.contains(x) by {
            assert(r@.contains(x) <==> listed(*m, id, x));
            assert(s.contains(x) <==> x < lines.len() && names_use(
                rels,
                rels.len() as int,
                lines[x as int]@,
                id,
            ));
        }
        lemma_ascending_unique(r@, s);
    }
    r
}

/// The relations that belong to public transport are those that say so, in their order.
pub proof fn lemma_public_relations(rels: Seq<Relation>)
    ensures
        public_relations(rels) == rels.filter(
            |r: Relation| r.tags.val("route"@) is Some || r.tags.val("public_transport"@) is Some,
        ),
    decreases rels.len(),
{
    reveal(Seq::filter);
    if rels.len() > 0 {
        lemma_public_relations(rels.drop_last());
    }
}

/// The numbers of a way are those of all lines with a relation that has the way and is called so, ascending.
pub proof fn lemma_numbers_of_way(rels: Seq<PreRelation>, lines: Seq<NamedLine>, id: i64, x: u32)
    requires
        lines.len() <= u32::MAX + 1,
    ensures
        ascending(numbers_of_way(rels, lines, id)),
        numbers_of_way(rels, lines, id).contains(x) <==> x < lines.len() && exists|i: int|
            0 <= i < rels.len() && #[trigger] covers(rels[i], id) && route_names(rels[i].tags) == Some(
                lines[x as int]@,
            ),
{
    lemma_line_numbers(rels, lines, id, lines.len() as int);
}

} // verus!
