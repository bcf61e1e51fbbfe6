//! Bus routes without a graph: which ways they use, and their colours.

use crate::collapse::{work_of, Work, WorkView};
use crate::graph::{
    ascending, EdgePL, EdgeView, Graph, NodePL, TransitInfo, TransitInfoId, TransitInfoInterner,
};
use crate::hashed::{
    slots_at, id_slots_get, id_slots_new, id_slots_push, IdSlots,
};
use crate::lines::{is_line, value_or_empty, with_line, Line};
use crate::osm::{Member, OsmId, Relation};
use crate::tags::Tags;
use crate::text::{contains_str, lowercase_of, occurs_in, to_lowercase};
use vstd::prelude::*;
use vstd::slice::slice_to_vec;

verus! {

/// A bus route.
#[derive(Debug)]
pub struct LightRelation {
    pub ref_tag: Option<String>,
    pub name: Option<String>,
    pub from_str: String,
    pub to_str: String,
    pub operator: Option<String>,
    pub colour: Option<String>,
}

/// The characters of a string that may be missing.
pub open spec fn chars(s: Option<String>) -> Option<Seq<char>> {
    match s {
        Some(t) => Some(t@),
        None => None,
    }
}

/// Whether a relation is a bus route.
pub open spec fn is_bus_route(tags: Tags) -> bool {
    tags.has2("route"@, "bus"@, "trolleybus"@)
}

/// Whether a bus route is what a relation says.
pub open spec fn is_light(l: LightRelation, tags: Tags) -> bool {
    &&& chars(l.ref_tag) == tags.val("ref"@)
    &&& chars(l.name) == tags.val("name"@)
    &&& l.from_str@ == value_or_empty(tags.val("from"@))
    &&& l.to_str@ == value_or_empty(tags.val("to"@))
    &&& chars(l.operator) == tags.val("operator"@)
    &&& chars(l.colour) == (if tags.val("colour"@) is Some {
        tags.val("colour"@)
    } else {
        tags.val("color"@)
    })
}

/// A table of relations by ways, once the first `n` members of a relation have been listed.
pub open spec fn with_members(
    m: Map<i64, Seq<usize>>,
    members: Seq<Member>,
    n: int,
    at: usize,
) -> Map<i64, Seq<usize>>
    decreases n,
{
    if n <= 0 {
        m
    } else {
        let rest = with_members(m, members, n - 1, at);
        match members[n - 1].member {
            OsmId::Way(id) => rest.insert(
                id,
                (if rest.contains_key(id) {
                    rest[id]
                } else {
                    Seq::<usize>::empty()
                }).push(at),
            ),
            _ => rest,
        }
    }
}

/// The bus routes of an extract, and for each way those that use it.
pub struct LightOsmData {
    pub relations: Vec<LightRelation>,
    pub way_to_relations: IdSlots,
}

fn copy_of(tags: &Tags, key: &str) -> (r: Option<String>)
    ensures
        chars(r) == tags.val(key@),
{
    match tags.get(key) {
        Some(v) => Some(v.clone()),
        None => None,
    }
}

fn copy_or_empty(tags: &Tags, key: &str) -> (r: String)
    ensures
        r@ == value_or_empty(tags.val(key@)),
{
    match tags.get(key) {
        Some(v) => v.clone(),
        None => String::new(),
    }
}

impl LightOsmData {
    /// Whether the positions in the table are those of relations.
    pub open spec fn wf(&self) -> bool {
        forall|id: i64, k: int|
            #![trigger slots_at(self.way_to_relations)[id][k]]
            slots_at(self.way_to_relations).contains_key(id) && 0 <= k < slots_at(
                self.way_to_relations,
            )[id].len() ==> slots_at(self.way_to_relations)[id][k] < self.relations@.len()
    }

    /// No bus routes.
    pub fn new() -> (r: Self)
        ensures
            r.wf(),
            r.relations@ == Seq::<LightRelation>::empty(),
            slots_at(r.way_to_relations) == Map::<i64, Seq<usize>>::empty(),
    {
        LightOsmData { relations: Vec::new(), way_to_relations: id_slots_new() }
    }

    fn list_members(&mut self, members: &Vec<Member>, at: usize)
        ensures
            final(self).relations == old(self).relations,
            slots_at(final(self).way_to_relations) == with_members(
                slots_at(old(self).way_to_relations),
                members@,
                members@.len() as int,
                at,
            ),
    {
        let mut j: usize = 0;
        while j < members.len()
            invariant
                j <= members@.len(),
                self.relations == old(self).relations,
                slots_at(self.way_to_relations) == with_members(
                    slots_at(old(self).way_to_relations),
                    members@,
                    j as int,
                    at,
                ),
            decreases members@.len() - j,
        {
            match members[j].member {
                OsmId::Way(id) => {
                    id_slots_push(&mut self.way_to_relations, id, at);
                },
                _ => {},
            }
            j = j + 1;
        }
    }

    /// Looks at a relation: keeps it if it is a bus route.
    pub fn add_relation(&mut self, relation: &Relation)
        requires
            old(self).wf(),
        ensures
            final(self).wf(),
            !is_bus_route(relation.tags) ==> *final(self) == *old(self),
            is_bus_route(relation.tags) ==> {
                let at = old(self).relations@.len() as usize;
                &&& final(self).relations@.len() == old(self).relations@.len() + 1
                &&& final(self).relations@.drop_last() == old(self).relations@
                &&& is_light(final(self).relations@.last(), relation.tags)
                &&& slots_at(final(self).way_to_relations) == with_members(
                    slots_at(old(self).way_to_relations),
                    relation.members@,
                    relation.members@.len() as int,
                    at,
                )
            },
    {
        if !relation.tags.is2("route", "bus", "trolleybus") {
            return ;
        }
        let at: usize = self.relations.len();
        let ghost before = *self;
        self.list_members(&relation.members, at);
        let colour = match relation.tags.get("colour") {
            Some(c) => Some(c.clone()),
            None => copy_of(&relation.tags, "color"),
        };
        self.relations.push(
            LightRelation {
                ref_tag: copy_of(&relation.tags, "ref"),
                name: copy_of(&relation.tags, "name"),
                from_str: copy_or_empty(&relation.tags, "from"),
                to_str: copy_or_empty(&relation.tags, "to"),
                operator: copy_of(&relation.tags, "operator"),
                colour,
            },
        );
        proof {
            assert(self.relations@.drop_last() =~= before.relations@);
            lemma_members_in_range(
                slots_at(before.way_to_relations),
                relation.members@,
                relation.members@.len() as int,
                at,
                self.relations@.len(),
            );
        }
    }

    /// The bus routes among relations.
    pub fn read_relations_only(relations: &Vec<Relation>) -> (r: Self)
        ensures
            r.wf(),
            is_light_of(r, relations@),
    {
        let mut r = LightOsmData::new();
        let mut i: usize = 0;
        assert(relations@.take(0) =~= Seq::<Relation>::empty());
        while i < relations.len()
            invariant
                i <= relations@.len(),
                r.wf(),
                is_light_of(r, relations@.take(i as int)),
            decreases relations@.len() - i,
        {
            let ghost before = r;
            r.add_relation(&relations[i]);
            proof {
                let t = relations@.take(i as int);
                let t1 = relations@.take(i + 1);
                assert(t1.drop_last() =~= t);
                assert forall|k: int| #![trigger r.relations@[k]] 0 <= k < r.relations@.len() implies is_light(
                    r.relations@[k],
                    bus_routes(t1)[k].tags,
                ) by {
                    if k < before.relations@.len() {
                        assert(r.relations@[k] == before.relations@[k]);
                    }
                }
            }
            i = i + 1;
        }
        assert(relations@.take(i as int) =~= relations@);
        r
    }

    /// The bus routes that use a way.
    pub fn relations_for_way(&self, way_id: i64) -> (r: Vec<&LightRelation>)
        requires
            self.wf(),
        ensures
            ({
                let m = slots_at(self.way_to_relations);
                if m.contains_key(way_id) {
                    &&& r@.len() == m[way_id].len()
                    &&& forall|k: int|
                        #![trigger r@[k]]
                        0 <= k < r@.len() ==> *r@[k] == self.relations@[m[way_id][k] as int]
                } else {
                    r@.len() == 0
                }
            }),
    {
        let mut r: Vec<&LightRelation> = Vec::new();
        if let Some(list) = id_slots_get(&self.way_to_relations, way_id) {
            let mut k: usize = 0;
            while k < list.len()
                invariant
                    self.wf(),
                    slots_at(self.way_to_relations).contains_key(way_id),
                    list@ == slots_at(self.way_to_relations)[way_id],
                    k <= list@.len(),
                    r@.len() == k,
                    forall|j: int|
                        #![trigger r@[j]]
                        0 <= j < k ==> *r@[j] == self.relations@[list@[j] as int],
                decreases list@.len() - k,
            {
                assert(slots_at(self.way_to_relations)[way_id][k as int]
                    < self.relations@.len());
                r.push(&self.relations[list[k]]);
                k = k + 1;
            }
        }
        r
    }
}

/// The bus routes among relations.
pub open spec fn bus_routes(rels: Seq<Relation>) -> Seq<Relation>
    decreases rels.len(),
{
    if rels.len() == 0 {
        Seq::empty()
    } else {
        let rest = bus_routes(rels.drop_last());
        if is_bus_route(rels.last().tags) {
            rest.push(rels.last())
        } else {
            rest
        }
    }
}

/// The table of bus routes by ways.
pub open spec fn route_table(rels: Seq<Relation>) -> Map<i64, Seq<usize>>
    decreases rels.len(),
{
    if rels.len() == 0 {
        Map::empty()
    } else {
        let rest = route_table(rels.drop_last());
        let last = rels.last();
        if is_bus_route(last.tags) {
            with_members(
                rest,
                last.members@,
                last.members@.len() as int,
                bus_routes(rels.drop_last()).len() as usize,
            )
        } else {
            rest
        }
    }
}

/// Whether data are the bus routes among relations, in their order, with the table of the ways that
/// they use.
pub open spec fn is_light_of(data: LightOsmData, rels: Seq<Relation>) -> bool {
    &&& data.relations@.len() == bus_routes(rels).len()
    &&& forall|k: int|
        #![trigger data.relations@[k]]
        0 <= k < data.relations@.len() ==> is_light(data.relations@[k], bus_routes(rels)[k].tags)
    &&& slots_at(data.way_to_relations) == route_table(rels)
}

proof fn lemma_members_in_range(
    m: Map<i64, Seq<usize>>,
    members: Seq<Member>,
    n: int,
    at: usize,
    limit: nat,
)
    requires
        0 <= n <= members.len(),
        at < limit,
        forall|id: i64, k: int|
            #![trigger m[id][k]]
            m.contains_key(id) && 0 <= k < m[id].len() ==> m[id][k] < limit,
    ensures
        forall|id: i64, k: int|
            #![trigger with_members(m, members, n, at)[id][k]]
            with_members(m, members, n, at).contains_key(id) && 0 <= k < with_members(
                m,
                members,
                n,
                at,
            )[id].len() ==> with_members(m, members, n, at)[id][k] < limit,
    decreases n,
{
    if n > 0 {
        lemma_members_in_range(m, members, n - 1, at, limit);
        let rest = with_members(m, members, n - 1, at);
        let all = with_members(m, members, n, at);
        assert forall|id: i64, k: int|
            #![trigger all[id][k]]
            all.contains_key(id) && 0 <= k < all[id].len() implies all[id][k] < limit by {
            if rest.contains_key(id) && k < rest[id].len() {
                assert(rest[id][k] < limit);
                assert(all[id][k] == rest[id][k]);
            }
        }
    }
}

// Colours.

/// Whether one of two strings is a part of the other.
pub open spec fn overlap(a: Seq<char>, b: Seq<char>) -> bool {
    occurs_in(a, b) || occurs_in(b, a)
}

/// Whether both strings are there and one is a part of the other.
pub open spec fn both_overlap(a: Option<Seq<char>>, b: Option<Seq<char>>) -> bool {
    a is Some && b is Some && overlap(a->0, b->0)
}

/// A string in lower case.
pub open spec fn lowered(s: Option<Seq<char>>) -> Option<Seq<char>> {
    match s {
        Some(t) => Some(lowercase_of(t)),
        None => None,
    }
}

/// How well a bus route fits a route: three for its reference, two for its name with the short name,
/// two for its name with the long name, one for its operator.
pub open spec fn fit(
    reference: Option<Seq<char>>,
    name: Option<Seq<char>>,
    operator: Option<Seq<char>>,
    short: Option<Seq<char>>,
    long: Option<Seq<char>>,
    agency: Option<Seq<char>>,
) -> int {
    (if both_overlap(reference, short) {
        3int
    } else {
        0
    }) + (if both_overlap(name, short) {
        2int
    } else {
        0
    }) + (if both_overlap(name, long) {
        2int
    } else {
        0
    }) + (if both_overlap(operator, agency) {
        1int
    } else {
        0
    })
}

pub open spec fn str_chars(s: Option<&str>) -> Option<Seq<char>> {
    match s {
        Some(t) => Some(t@),
        None => None,
    }
}

/// How well a bus route fits a route; the strings of the bus route are in lower case.
pub fn fit_score(
    reference: Option<&str>,
    name: Option<&str>,
    operator: Option<&str>,
    short: Option<&str>,
    long: Option<&str>,
    agency: Option<&str>,
) -> (r: u8)
    ensures
        r == fit(
            str_chars(reference),
            str_chars(name),
            str_chars(operator),
            str_chars(short),
            str_chars(long),
            str_chars(agency),
        ),
        r <= 8,
{
    let mut score: u8 = 0;
    if both(reference, short) {
        score = score + 3;
    }
    if both(name, short) {
        score = score + 2;
    }
    if both(name, long) {
        score = score + 2;
    }
    if both(operator, agency) {
        score = score + 1;
    }
    score
}

fn both(a: Option<&str>, b: Option<&str>) -> (r: bool)
    ensures
        r == both_overlap(str_chars(a), str_chars(b)),
{
    match (a, b) {
        (Some(x), Some(y)) => contains_str(x, y) || contains_str(y, x),
        _ => false,
    }
}

/// How well a bus route fits a route, by its strings in lower case. One without a colour does not.
pub open spec fn route_fit(
    r: LightRelation,
    short: Option<Seq<char>>,
    long: Option<Seq<char>>,
    agency: Option<Seq<char>>,
) -> int {
    if r.colour is None {
        0
    } else {
        fit(
            lowered(chars(r.ref_tag)),
            lowered(chars(r.name)),
            lowered(chars(r.operator)),
            short,
            long,
            agency,
        )
    }
}

fn lower(s: &Option<String>) -> (r: Option<String>)
    ensures
        chars(r) == lowered(chars(*s)),
{
    match s {
        Some(t) => Some(to_lowercase(t.as_str())),
        None => None,
    }
}

fn as_text(s: &Option<String>) -> (r: Option<&str>)
    ensures
        str_chars(r) == chars(*s),
{
    match s {
        Some(t) => Some(t.as_str()),
        None => None,
    }
}

/// Whether a bus route is the first of those that fit best, and fits at all.
pub open spec fn is_best(
    rels: Seq<LightRelation>,
    k: int,
    short: Option<Seq<char>>,
    long: Option<Seq<char>>,
    agency: Option<Seq<char>>,
) -> bool {
    &&& 0 <= k < rels.len()
    &&& route_fit(rels[k], short, long, agency) > 0
    &&& forall|j: int|
        #![trigger rels[j]]
        0 <= j < rels.len() ==> route_fit(rels[j], short, long, agency) <= route_fit(
            rels[k],
            short,
            long,
            agency,
        ) && (j < k ==> route_fit(rels[j], short, long, agency) < route_fit(
            rels[k],
            short,
            long,
            agency,
        ))
}

/// Whether a colour is that of the first of the bus routes that fit a route best, or is missing because
/// none fits.
pub open spec fn is_best_color(
    relations: Seq<LightRelation>,
    s: Option<Seq<char>>,
    l: Option<Seq<char>>,
    o: Option<Seq<char>>,
    colour: Option<Seq<char>>,
) -> bool {
    match colour {
        Some(c) => exists|k: int| #[trigger]
            is_best(relations, k, s, l, o) && chars(relations[k].colour) == Some(c),
        None => forall|j: int|
            #![trigger relations[j]]
            0 <= j < relations.len() ==> route_fit(relations[j], s, l, o) == 0,
    }
}

/// A string that may be missing, in lower case.
pub open spec fn lower_chars(s: Option<&String>) -> Option<Seq<char>> {
    match s {
        Some(t) => Some(lowercase_of(t@)),
        None => None,
    }
}

impl LightOsmData {
    /// The colour that `find_color` gives for a route, whose names are as its timetable writes them.
    pub fn color_of_route(
        &self,
        route_short_name: Option<&String>,
        route_long_name: Option<&String>,
        operator: &String,
    ) -> (r: Option<String>)
        ensures
            is_best_color(
                self.relations@,
                lower_chars(route_short_name),
                lower_chars(route_long_name),
                Some(operator@),
                chars(r),
            ),
    {
        let short = match route_short_name {
            Some(t) => Some(to_lowercase(t.as_str())),
            None => None,
        };
        let long = match route_long_name {
            Some(t) => Some(to_lowercase(t.as_str())),
            None => None,
        };
        let short_str = match &short {
            Some(t) => Some(t.as_str()),
            None => None,
        };
        let long_str = match &long {
            Some(t) => Some(t.as_str()),
            None => None,
        };
        self.find_color(short_str, long_str, Some(operator.as_str()))
    }

    /// The colour of the first of the bus routes that fit a route best, if one fits at all.
    pub fn find_color(
        &self,
        route_short_name: Option<&str>,
        route_long_name: Option<&str>,
        operator: Option<&str>,
    ) -> (r: Option<String>)
        ensures
            is_best_color(
                self.relations@,
                str_chars(route_short_name),
                str_chars(route_long_name),
                str_chars(operator),
                chars(r),
            ),
    {
        let ghost s = str_chars(route_short_name);
        let ghost l = str_chars(route_long_name);
        let ghost o = str_chars(operator);
        let ghost rels = self.relations@;
        let mut best: usize = 0;
        let mut best_score: u8 = 0;
        let mut k: usize = 0;
        while k < self.relations.len()
            invariant
                rels == self.relations@,
                s == str_chars(route_short_name),
                l == str_chars(route_long_name),
                o == str_chars(operator),
                k <= rels.len(),
                forall|j: int|
                    #![trigger rels[j]]
                    0 <= j < k ==> route_fit(rels[j], s, l, o) <= best_score,
                best_score > 0 ==> best < k && route_fit(rels[best as int], s, l, o) == best_score
                    && forall|j: int|
                    #![trigger rels[j]]
                    0 <= j < best ==> route_fit(rels[j], s, l, o) < best_score,
            decreases rels.len() - k,
        {
            let relation = &self.relations[k];
            if relation.colour.is_some() {
                let reference = lower(&relation.ref_tag);
                let name = lower(&relation.name);
                let op = lower(&relation.operator);
                let score: u8 = fit_score(
                    as_text(&reference),
                    as_text(&name),
                    as_text(&op),
                    route_short_name,
                    route_long_name,
                    operator,
                );
                if score > best_score {
                    best = k;
                    best_score = score;
                }
            }
            k = k + 1;
        }
        if best_score == 0 {
            return None;
        }
        assert(is_best(rels, best as int, s, l, o));
        match &self.relations[best].colour {
            Some(c) => Some(c.clone()),
            None => None,
        }
    }
}

// What the table of bus routes and the choice among them are.

/// Whether a relation has a way among its members.
pub open spec fn has_member_way(r: Relation, id: i64) -> bool {
    exists|m: int| 0 <= m < r.members@.len() && (#[trigger] r.members@[m]).member == OsmId::Way(id)
}

/// The bus routes are the relations that say so, in their order.
pub proof fn lemma_bus_routes(rels: Seq<Relation>)
    ensures
        bus_routes(rels) == rels.filter(
            |r: Relation|
                r.tags.val("route"@) == Some("bus"@) || r.tags.val("route"@) == Some("trolleybus"@),
        ),
    decreases rels.len(),
{
    reveal(Seq::filter);
    if rels.len() > 0 {
        lemma_bus_routes(rels.drop_last());
    }
}

proof fn lemma_with_members(
    m: Map<i64, Seq<usize>>,
    members: Seq<Member>,
    n: int,
    at: usize,
    id: i64,
    k: usize,
)
    requires
        0 <= n <= members.len(),
    ensures
        ({
            let r = with_members(m, members, n, at);
            let lists = exists|i: int|
                0 <= i < n && (#[trigger] members[i]).member == OsmId::Way(id);
            &&& r.contains_key(id) && r[id].contains(k) <==> (m.contains_key(id) && m[id].contains(k))
                || (k == at && lists)
        }),
    decreases n,
{
    if n > 0 {
        lemma_with_members(m, members, n - 1, at, id, k);
        let rest = with_members(m, members, n - 1, at);
        let r = with_members(m, members, n, at);
        let last = members[n - 1].member;
        assert(members[n - 1].member == last);
        if last == OsmId::Way(id) {
            let old_list = if rest.contains_key(id) {
                rest[id]
            } else {
                Seq::<usize>::empty()
            };
            let list = old_list.push(at);
            assert(r[id] == list);
            assert(list[old_list.len() as int] == at);
            if old_list.contains(k) {
                let i = choose|i: int| 0 <= i < old_list.len() && old_list[i] == k;
                assert(list[i] == k);
            }
            if list.contains(k) && k != at {
                let i = choose|i: int| 0 <= i < list.len() && list[i] == k;
                assert(old_list[i] == k);
            }
        }
    }
}

/// The table lists a bus route at a way if and only if the way is one of its members.
pub proof fn lemma_route_table(rels: Seq<Relation>, id: i64, k: usize)
    requires
        rels.len() <= usize::MAX,
    ensures
        route_table(rels).contains_key(id) && route_table(rels)[id].contains(k) <==> k < bus_routes(
            rels,
        ).len() && has_member_way(bus_routes(rels)[k as int], id),
        bus_routes(rels).len() <= rels.len(),
    decreases rels.len(),
{
    if rels.len() > 0 {
        let rest = rels.drop_last();
        lemma_route_table(rest, id, k);
        let last = rels.last();
        if is_bus_route(last.tags) {
            let at = bus_routes(rest).len() as usize;
            lemma_with_members(
                route_table(rest),
                last.members@,
                last.members@.len() as int,
                at,
                id,
                k,
            );
            assert(bus_routes(rels) == bus_routes(rest).push(last));
        }
    }
}

/// Whether two texts are there and one is a part of the other.
pub open spec fn fits(a: Option<Seq<char>>, b: Option<Seq<char>>) -> bool {
    match (a, b) {
        (Some(x), Some(y)) => (exists|i: int|
            0 <= i <= x.len() - y.len() && #[trigger] x.subrange(i, i + y.len()) == y) || (exists|i: int|
            0 <= i <= y.len() - x.len() && #[trigger] y.subrange(i, i + x.len()) == x),
        _ => false,
    }
}

/// What each text of a bus route adds: three for a reference that fits, two for each of the two names that its
/// name fits, one for an operator that fits. Nothing fits where there is nothing.
pub proof fn lemma_fit(
    reference: Option<Seq<char>>,
    name: Option<Seq<char>>,
    operator: Option<Seq<char>>,
    short: Option<Seq<char>>,
    long: Option<Seq<char>>,
    agency: Option<Seq<char>>,
)
    ensures
        fit(None, None, None, short, long, agency) == 0,
        fit(reference, name, operator, short, long, agency) - fit(
            None,
            name,
            operator,
            short,
            long,
            agency,
        ) == (if fits(reference, short) {
            3int
        } else {
            0
        }),
        fit(reference, name, operator, short, long, agency) - fit(
            reference,
            None,
            operator,
            short,
            long,
            agency,
        ) == (if fits(name, short) && fits(name, long) {
            4int
        } else if fits(name, short) || fits(name, long) {
            2
        } else {
            0
        }),
        fit(reference, name, operator, short, long, agency) - fit(
            reference,
            name,
            None,
            short,
            long,
            agency,
        ) == (if fits(operator, agency) {
            1int
        } else {
            0
        }),
{
    assert(fits(reference, short) == both_overlap(reference, short));
    assert(fits(name, short) == both_overlap(name, short));
    assert(fits(name, long) == both_overlap(name, long));
    assert(fits(operator, agency) == both_overlap(operator, agency));
}

} // verus!
