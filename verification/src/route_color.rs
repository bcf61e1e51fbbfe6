//! The colour of a route, taken from the route relations near its stops.

use crate::geometry::Point;
use crate::hashed::{indices_insert, indices_new, indices_of, IndexSet};
use crate::matcher::{allowed_modes_for, modes_of};
use crate::mots::RouteType;
use crate::network_routes::{are_near, Network, OsmRelation};
use crate::tags::Tags;
use crate::text::{contains_str, lowercase_of, occurs_in, to_lowercase};
use vstd::prelude::*;

verus! {

/// How a route and its operator are called.
#[derive(Debug)]
pub struct RouteLabels {
    pub short_name: Option<String>,
    pub long_name: Option<String>,
    pub agency_name: Option<String>,
}

/// The lower case of a text, if there is one.
pub open spec fn lower(s: Option<String>) -> Option<Seq<char>> {
    match s {
        Some(t) => Some(lowercase_of(t@)),
        None => None,
    }
}

/// Whether two texts are parts of one another.
pub open spec fn overlap(a: Seq<char>, b: Seq<char>) -> bool {
    occurs_in(a, b) || occurs_in(b, a)
}

/// Whether the value of a key, in lower case, overlaps with a text.
pub open spec fn tag_overlaps(tags: Tags, key: Seq<char>, text: Option<Seq<char>>) -> bool {
    &&& tags.val(key) is Some
    &&& text is Some
    &&& overlap(lowercase_of(tags.val(key)->0), text->0)
}

/// Whether the value of a key is the name of a route.
pub open spec fn names_route(
    tags: Tags,
    key: Seq<char>,
    short: Option<Seq<char>>,
    long: Option<Seq<char>>,
) -> bool {
    tag_overlaps(tags, key, short) || tag_overlaps(tags, key, long)
}

/// How well a relation fits a route: two points for a name, one for the operator.
pub open spec fn match_score(tags: Tags, labels: RouteLabels) -> int {
    let s = lower(labels.short_name);
    let l = lower(labels.long_name);
    (if names_route(tags, "ref"@, s, l) || names_route(tags, "name"@, s, l) || names_route(
        tags,
        "official_name"@,
        s,
        l,
    ) || names_route(tags, "alt_name"@, s, l) {
        2int
    } else {
        0
    }) + (if tag_overlaps(tags, "operator"@, lower(labels.agency_name)) {
        1int
    } else {
        0
    })
}

fn lower_of(s: &Option<String>) -> (r: Option<String>)
    ensures
        lower(*s) == (match r {
            Some(t) => Some(t@),
            None => None,
        }),
{
    match s {
        Some(t) => Some(to_lowercase(t.as_str())),
        None => None,
    }
}

/// The characters of a text, if there is one.
pub open spec fn chars(s: Option<String>) -> Option<Seq<char>> {
    match s {
        Some(t) => Some(t@),
        None => None,
    }
}

fn do_tag_overlaps(tags: &Tags, key: &str, text: &Option<String>) -> (r: bool)
    ensures
        r == tag_overlaps(*tags, key@, chars(*text)),
{
    match (tags.get(key), text) {
        (Some(v), Some(t)) => {
            let v = to_lowercase(v.as_str());
            contains_str(v.as_str(), t.as_str()) || contains_str(t.as_str(), v.as_str())
        },
        _ => false,
    }
}

fn score(
    tags: &Tags,
    short: &Option<String>,
    long: &Option<String>,
    agency: &Option<String>,
    Ghost(labels): Ghost<RouteLabels>,
) -> (r: u8)
    requires
        chars(*short) == lower(labels.short_name),
        chars(*long) == lower(labels.long_name),
        chars(*agency) == lower(labels.agency_name),
    ensures
        r == match_score(*tags, labels),
{
    let named = do_tag_overlaps(tags, "ref", short) || do_tag_overlaps(tags, "ref", long)
        || do_tag_overlaps(tags, "name", short) || do_tag_overlaps(tags, "name", long)
        || do_tag_overlaps(tags, "official_name", short) || do_tag_overlaps(
        tags,
        "official_name",
        long,
    ) || do_tag_overlaps(tags, "alt_name", short) || do_tag_overlaps(tags, "alt_name", long);
    let mut r: u8 = 0;
    if named {
        r = 2;
    }
    if do_tag_overlaps(tags, "operator", agency) {
        r = r + 1;
    }
    r
}

/// How many of the first `n` stops a relation was found near.
pub open spec fn coverage(near: Seq<Vec<usize>>, rel: usize, n: int) -> nat
    decreases n,
{
    if n <= 0 {
        0
    } else {
        coverage(near, rel, n - 1) + (if near[n - 1]@.contains(rel) {
            1nat
        } else {
            0
        })
    }
}

proof fn lemma_coverage_bounded(near: Seq<Vec<usize>>, rel: usize, n: int)
    requires
        0 <= n,
    ensures
        coverage(near, rel, n) <= n,
    decreases n,
{
    if n > 0 {
        lemma_coverage_bounded(near, rel, n - 1);
    }
}

/// Whether a relation may give the colour: it has one, and was found near half of the stops.
pub open spec fn may_color(rels: Seq<OsmRelation>, near: Seq<Vec<usize>>, k: int) -> bool {
    &&& 0 <= k < rels.len()
    &&& rels[k].tags.val("colour"@) is Some
    &&& 2 * coverage(near, k as usize, near.len() as int) >= near.len()
}

/// How a relation ranks: by its score, then by the number of stops near it.
pub open spec fn rank(rels: Seq<OsmRelation>, near: Seq<Vec<usize>>, labels: RouteLabels, k: int) -> (
    int,
    int,
) {
    (match_score(rels[k].tags, labels), coverage(near, k as usize, near.len() as int) as int)
}

pub open spec fn outranks(a: (int, int), b: (int, int)) -> bool {
    a.0 > b.0 || (a.0 == b.0 && a.1 > b.1)
}

/// Whether a relation is the first of the best ranked among the first `n`.
pub open spec fn is_best(
    rels: Seq<OsmRelation>,
    near: Seq<Vec<usize>>,
    labels: RouteLabels,
    n: int,
    k: int,
) -> bool {
    &&& k < n
    &&& may_color(rels, near, k)
    &&& forall|j: int| #[trigger]
        may_color(rels, near, j) && j < n ==> (if j < k {
            outranks(rank(rels, near, labels, k), rank(rels, near, labels, j))
        } else {
            !outranks(rank(rels, near, labels, j), rank(rels, near, labels, k))
        })
}

/// How many stops each relation was found near.
fn count_coverage(near: &Vec<Vec<usize>>, relations: usize) -> (r: Vec<usize>)
    requires
        forall|i: int, j: int|
            0 <= i < near@.len() && 0 <= j < near@[i]@.len() ==> (#[trigger] near@[i]@[j])
                < relations,
    ensures
        r@.len() == relations,
        forall|k: int|
            0 <= k < relations ==> (#[trigger] r@[k]) == coverage(
                near@,
                k as usize,
                near@.len() as int,
            ),
{
    let mut r: Vec<usize> = Vec::new();
    let mut k: usize = 0;
    while k < relations
        invariant
            k <= relations,
            r@.len() == k,
            forall|j: int| 0 <= j < k ==> (#[trigger] r@[j]) == 0,
        decreases relations - k,
    {
        r.push(0);
        k = k + 1;
    }
    let mut i: usize = 0;
    while i < near.len()
        invariant
            i <= near@.len(),
            forall|i: int, j: int|
                0 <= i < near@.len() && 0 <= j < near@[i]@.len() ==> (#[trigger] near@[i]@[j])
                    < relations,
            r@.len() == relations,
            forall|k: int|
                0 <= k < relations ==> (#[trigger] r@[k]) == coverage(near@, k as usize, i as int),
        decreases near@.len() - i,
    {
        let mut seen: IndexSet = indices_new();
        let stop = &near[i];
        let mut j: usize = 0;
        while j < stop.len()
            invariant
                i < near@.len(),
                stop == near@[i as int],
                j <= stop@.len(),
                forall|i: int, j: int|
                    0 <= i < near@.len() && 0 <= j < near@[i]@.len() ==> (#[trigger] near@[i]@[j])
                        < relations,
                r@.len() == relations,
                forall|v: usize| #[trigger]
                    indices_of(seen).contains(v) <==> stop@.take(j as int).contains(v),
                forall|k: int|
                    0 <= k < relations ==> (#[trigger] r@[k]) == coverage(
                        near@,
                        k as usize,
                        i as int,
                    ) + (if stop@.take(j as int).contains(k as usize) {
                        1nat
                    } else {
                        0
                    }),
            decreases stop@.len() - j,
        {
            assert(near@[i as int]@[j as int] < relations);
            let v: usize = stop[j];
            let ghost before = stop@.take(j as int);
            let ghost after = stop@.take(j + 1);
            proof {
                assert(after =~= before.push(v));
                assert forall|w: usize| #[trigger] after.contains(w) <==> before.contains(w) || w
                    == v by {
                    if before.contains(w) {
                        let x = choose|x: int| 0 <= x < before.len() && before[x] == w;
                        assert(after[x] == w);
                    }
                    if w == v {
                        assert(after[j as int] == w);
                    }
                    if after.contains(w) {
                        let x = choose|x: int| 0 <= x < after.len() && after[x] == w;
                        if x < j {
                            assert(before[x] == w);
                        }
                    }
                }
                lemma_coverage_bounded(near@, v, i as int);
            }
            assert(near.len() == near@.len());
            if indices_insert(&mut seen, v) {
                let c: usize = r[v];
                r.set(v, c + 1);
            }
            j = j + 1;
        }
        assert(stop@.take(j as int) =~= stop@);
        i = i + 1;
    }
    r
}

/// Whether a colour is that of the route relation that fits a route best. There is none if the route has
/// fewer than two stops or no relation may colour it.
pub open spec fn is_best_color(
    relations: Seq<OsmRelation>,
    near: Seq<Vec<usize>>,
    labels: RouteLabels,
    color: Option<Seq<char>>,
) -> bool {
    match color {
        Some(c) => near.len() >= 2 && exists|k: int| #[trigger]
            is_best(relations, near, labels, relations.len() as int, k)
                && relations[k].tags.val("colour"@) == Some(c),
        None => near.len() < 2 || forall|k: int| !#[trigger] may_color(relations, near, k),
    }
}

/// The colour of the route relation that fits a route best, given for each of its stops which relations
/// were found near it. A route with fewer than two stops has none.
pub fn best_route_color(
    relations: &Vec<OsmRelation>,
    near: &Vec<Vec<usize>>,
    labels: &RouteLabels,
) -> (r: Option<String>)
    requires
        forall|i: int, j: int|
            0 <= i < near@.len() && 0 <= j < near@[i]@.len() ==> (#[trigger] near@[i]@[j])
                < relations@.len(),
    ensures
        is_best_color(relations@, near@, *labels, chars(r)),
{
    if near.len() < 2 {
        return None;
    }
    let short = lower_of(&labels.short_name);
    let long = lower_of(&labels.long_name);
    let agency = lower_of(&labels.agency_name);
    let counts = count_coverage(near, relations.len());
    let ghost rels = relations@;
    let mut best: Option<(usize, u8, usize)> = None;
    let mut k: usize = 0;
    while k < relations.len()
        invariant
            rels == relations@,
            k <= rels.len(),
            chars(short) == lower(labels.short_name),
            chars(long) == lower(labels.long_name),
            chars(agency) == lower(labels.agency_name),
            counts@.len() == rels.len(),
            forall|j: int|
                0 <= j < rels.len() ==> (#[trigger] counts@[j]) == coverage(
                    near@,
                    j as usize,
                    near@.len() as int,
                ),
            match best {
                Some((b, s, c)) => is_best(rels, near@, *labels, k as int, b as int) && rank(
                    rels,
                    near@,
                    *labels,
                    b as int,
                ) == (s as int, c as int),
                None => forall|j: int| #[trigger] may_color(rels, near@, j) ==> j >= k,
            },
        decreases rels.len() - k,
    {
        let rel = &relations[k];
        let c: usize = counts[k];
        proof {
            lemma_coverage_bounded(near@, k, near@.len() as int);
        }
        assert(near.len() == near@.len());
        let covered = c >= near.len() - c;
        let may = covered && rel.tags.contains_key("colour");
        assert(may == may_color(rels, near@, k as int));
        if may {
            let s: u8 = score(&rel.tags, &short, &long, &agency, Ghost(*labels));
            assert(rank(rels, near@, *labels, k as int) == (s as int, c as int));
            let better = match best {
                Some((_, t, d)) => s > t || (s == t && c > d),
                None => true,
            };
            if better {
                best = Some((k, s, c));
            }
        }
        k = k + 1;
    }
    match best {
        Some((b, _, _)) => {
            assert(may_color(rels, near@, b as int));
            match relations[b].tags.get("colour") {
                Some(c) => Some(c.clone()),
                None => None,
            }
        },
        None => None,
    }
}

/// Whether a colour is that of the relation that fits a route best, out of those at the nodes that are
/// nearest to its stops.
pub open spec fn is_color_near(
    net: Network,
    modes: u8,
    stops: Seq<Point>,
    near: Seq<Vec<usize>>,
    labels: RouteLabels,
    color: Option<Seq<char>>,
) -> bool {
    &&& near.len() == stops.len()
    &&& forall|i: int|
        #![trigger near[i]]
        0 <= i < stops.len() ==> are_near(net, modes, stops[i], near[i]@)
    &&& is_best_color(net.relations@, near, labels, color)
}

/// The colour of a route, from the relations at the nodes near its stops on which its type of route runs. A
/// route with fewer than two stops has none.
pub fn find_route_color_from_osm(
    net: &Network,
    stops: &Vec<Point>,
    route_type: Option<RouteType>,
    labels: &RouteLabels,
) -> (r: Option<String>)
    requires
        net.has_lists(),
        net.lists_routes(),
    ensures
        stops@.len() < 2 ==> r is None,
        stops@.len() >= 2 ==> exists|near: Seq<Vec<usize>>| #[trigger]
            is_color_near(*net, modes_of(route_type), stops@, near, *labels, chars(r)),
{
    if stops.len() < 2 {
        return None;
    }
    let modes: u8 = allowed_modes_for(route_type);
    let tree = net.node_tree(modes);
    let mut near: Vec<Vec<usize>> = Vec::new();
    let mut i: usize = 0;
    assert(net.found_for.len() == net.found_for@.len());
    while i < stops.len()
        invariant
            net.has_lists(),
            net.lists_routes(),
            net.found_for@.len() <= usize::MAX,
            crate::segment_matcher::nodes_in(tree) == crate::network_routes::all_found(
                *net,
                modes,
            ).to_multiset(),
            i <= stops@.len(),
            near@.len() == i,
            forall|k: int|
                #![trigger near@[k]]
                0 <= k < i ==> are_near(*net, modes, stops@[k], near@[k]@),
            forall|k: int, j: int|
                0 <= k < near@.len() && 0 <= j < near@[k]@.len() ==> (#[trigger] near@[k]@[j])
                    < net.relations@.len(),
        decreases stops@.len() - i,
    {
        let list = net.relations_near(&tree, modes, stops[i]);
        proof {
            crate::network_routes::lemma_near_below(*net, modes, stops@[i as int], list@);
        }
        near.push(list);
        i = i + 1;
    }
    let r = best_route_color(&net.relations, &near, labels);
    assert(is_color_near(*net, modes, stops@, near@, *labels, chars(r)));
    r
}

// What makes a relation fit.

/// A relation that has a name of the route outranks one that has none, whatever else they have; among those
/// alike in this, one with the operator of the route outranks one without; among those alike in both, the one
/// near more stops.
pub proof fn lemma_names_count_most(
    rels: Seq<OsmRelation>,
    near: Seq<Vec<usize>>,
    labels: RouteLabels,
    j: int,
    k: int,
)
    ensures
        has_name_of(rels[j].tags, labels) && !has_name_of(rels[k].tags, labels) ==> outranks(
            rank(rels, near, labels, j),
            rank(rels, near, labels, k),
        ),
        has_name_of(rels[j].tags, labels) == has_name_of(rels[k].tags, labels) && has_operator_of(
            rels[j].tags,
            labels,
        ) && !has_operator_of(rels[k].tags, labels) ==> outranks(
            rank(rels, near, labels, j),
            rank(rels, near, labels, k),
        ),
        has_name_of(rels[j].tags, labels) == has_name_of(rels[k].tags, labels) && has_operator_of(
            rels[j].tags,
            labels,
        ) == has_operator_of(rels[k].tags, labels) ==> (outranks(
            rank(rels, near, labels, j),
            rank(rels, near, labels, k),
        ) <==> coverage(near, j as usize, near.len() as int) > coverage(
            near,
            k as usize,
            near.len() as int,
        )),
{
    lemma_name_and_operator(rels[j].tags, labels);
    lemma_name_and_operator(rels[k].tags, labels);
}

/// Whether a text is a part of another.
pub open spec fn is_part_of(a: Seq<char>, b: Seq<char>) -> bool {
    exists|i: int| 0 <= i <= b.len() - a.len() && #[trigger] b.subrange(i, i + a.len()) == a
}

/// Whether the value of a key and a text, both in lower case, are parts of one another.
pub open spec fn tells(tags: Tags, key: Seq<char>, text: Option<String>) -> bool {
    match (tags.val(key), text) {
        (Some(v), Some(t)) => is_part_of(lowercase_of(v), lowercase_of(t@)) || is_part_of(
            lowercase_of(t@),
            lowercase_of(v),
        ),
        _ => false,
    }
}

/// The keys under which a relation has names.
pub open spec fn name_keys() -> Seq<Seq<char>> {
    seq!["ref"@, "name"@, "official_name"@, "alt_name"@]
}

/// Whether a relation has a name of a route, short or long: as its reference, its name, its official name or
/// another one.
pub open spec fn has_name_of(tags: Tags, labels: RouteLabels) -> bool {
    exists|key: Seq<char>| #[trigger]
        name_keys().contains(key) && (tells(tags, key, labels.short_name) || tells(
            tags,
            key,
            labels.long_name,
        ))
}

/// Whether a relation has the operator of a route.
pub open spec fn has_operator_of(tags: Tags, labels: RouteLabels) -> bool {
    tells(tags, "operator"@, labels.agency_name)
}

proof fn lemma_tells(tags: Tags, key: Seq<char>, text: Option<String>)
    ensures
        tells(tags, key, text) == tag_overlaps(tags, key, lower(text)),
{
    if let (Some(v), Some(t)) = (tags.val(key), text) {
        let a = lowercase_of(v);
        let b = lowercase_of(t@);
        lemma_part(a, b);
        lemma_part(b, a);
    }
}

proof fn lemma_part(a: Seq<char>, b: Seq<char>)
    ensures
        is_part_of(a, b) == occurs_in(b, a),
{
    if is_part_of(a, b) {
        let i = choose|i: int| 0 <= i <= b.len() - a.len() && #[trigger] b.subrange(i, i + a.len()) == a;
        assert(b.subrange(i, i + a.len()) == a);
    }
    if occurs_in(b, a) {
        let i = choose|i: int| 0 <= i <= b.len() - a.len() && #[trigger] b.subrange(i, i + a.len()) == a;
        assert(b.subrange(i, i + a.len()) == a);
    }
}

proof fn lemma_name_and_operator(tags: Tags, labels: RouteLabels)
    ensures
        has_name_of(tags, labels) <==> match_score(tags, labels) >= 2,
        has_operator_of(tags, labels) <==> match_score(tags, labels) % 2 == 1,
{
    let keys = name_keys();
    assert forall|key: Seq<char>|
        (tells(tags, key, labels.short_name) || tells(tags, key, labels.long_name)) == #[trigger]
        names_route(tags, key, lower(labels.short_name), lower(labels.long_name)) by {
        lemma_tells(tags, key, labels.short_name);
        lemma_tells(tags, key, labels.long_name);
    }
    lemma_tells(tags, "operator"@, labels.agency_name);
    let s = lower(labels.short_name);
    let l = lower(labels.long_name);
    assert(keys[0] == "ref"@ && keys[1] == "name"@ && keys[2] == "official_name"@ && keys[3]
        == "alt_name"@);
    assert(keys.contains(keys[0]) && keys.contains(keys[1]) && keys.contains(keys[2])
        && keys.contains(keys[3]));
    assert(names_route(tags, keys[0], s, l) || !names_route(tags, keys[0], s, l));
    assert(names_route(tags, keys[1], s, l) || !names_route(tags, keys[1], s, l));
    assert(names_route(tags, keys[2], s, l) || !names_route(tags, keys[2], s, l));
    assert(names_route(tags, keys[3], s, l) || !names_route(tags, keys[3], s, l));
    if has_name_of(tags, labels) {
        let key = choose|key: Seq<char>| #[trigger]
            keys.contains(key) && (tells(tags, key, labels.short_name) || tells(
                tags,
                key,
                labels.long_name,
            ));
        assert(names_route(tags, key, s, l));
    }
}

/// A relation counts as near as many stops as there are lists with it.
pub proof fn lemma_coverage(near: Seq<Vec<usize>>, rel: usize)
    ensures
        coverage(near, rel, near.len() as int) == near.filter(
            |list: Vec<usize>| list@.contains(rel),
        ).len(),
    decreases near.len(),
{
    reveal(Seq::filter);
    if near.len() > 0 {
        lemma_coverage(near.drop_last(), rel);
        lemma_coverage_of_prefix(near, rel, near.len() - 1);
    }
}

proof fn lemma_coverage_of_prefix(near: Seq<Vec<usize>>, rel: usize, n: int)
    requires
        0 <= n < near.len(),
    ensures
        coverage(near, rel, n) == coverage(near.drop_last(), rel, n),
    decreases n,
{
    if n > 0 {
        lemma_coverage_of_prefix(near, rel, n - 1);
    }
}

} // verus!
