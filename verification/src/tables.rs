//! Rewriting the tables of a feed: which shapes stay, which shape a trip gets, which colours a route
//! gets.

use crate::gtfs_load::{route_allowed, PatternGroup};
use crate::hashed::{
    indices_of, name_set_contains, name_set_insert, name_set_new, names_get, names_in, names_insert,
    names_new, names_of, texts_insert, texts_new, texts_of, IndexSet, NameIndex, NameSet, TextMap,
};
use crate::light_osm::{chars, str_chars};
use crate::mots::{category_of, RouteType};
use crate::text::str_eq;
use vstd::prelude::*;

verus! {

/// A record, as plain values.
pub open spec fn fields(record: Seq<String>) -> Seq<Seq<char>> {
    record.map_values(|s: String| s@)
}

/// Whether a column is the first with a name.
pub open spec fn is_column(headers: Seq<String>, name: Seq<char>, i: int) -> bool {
    &&& 0 <= i < headers.len()
    &&& headers[i]@ == name
    &&& forall|j: int| 0 <= j < i ==> (#[trigger] headers[j])@ != name
}

/// The first column with a name.
pub fn find_column(headers: &Vec<String>, name: &str) -> (r: Option<usize>)
    ensures
        match r {
            Some(i) => is_column(headers@, name@, i as int),
            None => forall|j: int| 0 <= j < headers@.len() ==> (#[trigger] headers@[j])@ != name@,
        },
{
    let mut i: usize = 0;
    while i < headers.len()
        invariant
            i <= headers@.len(),
            forall|j: int| 0 <= j < i ==> (#[trigger] headers@[j])@ != name@,
        decreases headers@.len() - i,
    {
        if str_eq(headers[i].as_str(), name) {
            return Some(i);
        }
        i = i + 1;
    }
    None
}

fn copy_record(record: &Vec<String>) -> (r: Vec<String>)
    ensures
        fields(r@) == fields(record@),
        r@.len() == record@.len(),
{
    let mut r: Vec<String> = Vec::new();
    let mut i: usize = 0;
    while i < record.len()
        invariant
            i <= record@.len(),
            r@.len() == i,
            forall|j: int| #![trigger r@[j]] 0 <= j < i ==> r@[j]@ == record@[j]@,
        decreases record@.len() - i,
    {
        r.push(record[i].clone());
        i = i + 1;
    }
    assert(fields(r@) =~= fields(record@));
    r
}

/// Headers with a column, which is appended if it is missing.
pub fn with_column(headers: &Vec<String>, name: &str) -> (r: Vec<String>)
    ensures
        fields(r@) == (if exists|j: int|
            0 <= j < headers@.len() && (#[trigger] headers@[j])@ == name@ {
            fields(headers@)
        } else {
            fields(headers@).push(name@)
        }),
{
    let mut r = copy_record(headers);
    if find_column(headers, name).is_none() {
        let ghost before = fields(r@);
        r.push(name.to_owned());
        assert(fields(r@) =~= before.push(name@));
    }
    r
}

/// A record with a new value in a column, if there is one and the record reaches that far.
pub open spec fn replaced(
    record: Seq<Seq<char>>,
    column: Option<usize>,
    value: Option<Seq<char>>,
) -> Seq<Seq<char>> {
    if column is Some && value is Some && column->0 < record.len() {
        record.update(column->0 as int, value->0)
    } else {
        record
    }
}

/// A record with a value behind it, or nothing, if the column is missing.
pub open spec fn appended(
    record: Seq<Seq<char>>,
    column: Option<usize>,
    value: Option<Seq<char>>,
) -> Seq<Seq<char>> {
    if column is None {
        record.push(
            if value is Some {
                value->0
            } else {
                Seq::empty()
            },
        )
    } else {
        record
    }
}

fn replace_field(record: &mut Vec<String>, column: Option<usize>, value: Option<&str>)
    ensures
        fields(final(record)@) == replaced(fields(old(record)@), column, str_chars(value)),
        final(record)@.len() == old(record)@.len(),
{
    let ghost before = fields(record@);
    if let Some(i) = column {
        if let Some(v) = value {
            if i < record.len() {
                record.set(i, v.to_owned());
                assert(fields(record@) =~= before.update(i as int, v@));
            }
        }
    }
}

fn append_field(record: &mut Vec<String>, column: Option<usize>, value: Option<&str>)
    ensures
        fields(final(record)@) == appended(fields(old(record)@), column, str_chars(value)),
{
    let ghost before = fields(record@);
    if column.is_none() {
        let v = match value {
            Some(v) => v.to_owned(),
            None => String::new(),
        };
        let ghost vv = v@;
        record.push(v);
        assert(fields(record@) =~= before.push(vv));
        assert(value is None ==> vv =~= Seq::<char>::empty());
    }
}

/// The record of a trip with its shape. A trip without a new shape keeps what it has.
pub fn rewrite_trip(
    record: &Vec<String>,
    shape_column: Option<usize>,
    shape_id: Option<&str>,
) -> (r: Vec<String>)
    ensures
        fields(r@) == appended(
            replaced(fields(record@), shape_column, str_chars(shape_id)),
            shape_column,
            str_chars(shape_id),
        ),
{
    let mut r = copy_record(record);
    replace_field(&mut r, shape_column, shape_id);
    append_field(&mut r, shape_column, shape_id);
    r
}

/// The record of a route with its colours. A route without new colours keeps what it has.
pub fn rewrite_route(
    record: &Vec<String>,
    color_column: Option<usize>,
    text_column: Option<usize>,
    color: Option<&str>,
    text_color: Option<&str>,
) -> (r: Vec<String>)
    requires
        color_column is Some && text_column is Some ==> color_column->0 != text_column->0,
    ensures
        fields(r@) == appended(
            appended(
                replaced(
                    replaced(fields(record@), color_column, str_chars(color)),
                    text_column,
                    str_chars(text_color),
                ),
                color_column,
                str_chars(color),
            ),
            text_column,
            str_chars(text_color),
        ),
{
    let mut r = copy_record(record);
    replace_field(&mut r, color_column, color);
    replace_field(&mut r, text_column, text_color);
    append_field(&mut r, color_column, color);
    append_field(&mut r, text_column, text_color);
    r
}

/// Rewriting changes the shape of a trip and nothing else.
pub proof fn lemma_trip_keeps_fields(
    record: Seq<Seq<char>>,
    column: Option<usize>,
    value: Option<Seq<char>>,
    i: int,
)
    requires
        0 <= i < record.len(),
        column is Some ==> column->0 != i,
    ensures
        appended(replaced(record, column, value), column, value)[i] == record[i],
{
}

/// The shapes that are replaced: those of trips of the modes that have been asked for, unless all have
/// been.
pub open spec fn is_replaced(all_modes: bool, shape: Option<Seq<char>>, allowed: bool) -> bool {
    !all_modes && allowed && shape is Some && shape->0.len() > 0
}

/// Notes the shape of a trip if it is to be replaced.
pub fn note_replaced_shape(
    replaced_ids: &mut NameSet,
    all_modes: bool,
    route_type: RouteType,
    allowed_mots: &IndexSet,
    shape_id: &Option<String>,
)
    ensures
        names_in(*final(replaced_ids)) == (if is_replaced(
            all_modes,
            chars(*shape_id),
            indices_of(*allowed_mots).contains(category_of(route_type).position()),
        ) {
            names_in(*old(replaced_ids)).insert(chars(*shape_id)->0)
        } else {
            names_in(*old(replaced_ids))
        }),
{
    if all_modes || !route_allowed(route_type, allowed_mots) {
        return ;
    }
    if let Some(id) = shape_id {
        if id.as_str().unicode_len() > 0 {
            name_set_insert(replaced_ids, id.clone());
        }
    }
}

/// No shapes.
pub fn no_shapes() -> (r: NameSet)
    ensures
        names_in(r) == Set::<Seq<char>>::empty(),
{
    name_set_new()
}

/// Notes a shape that has been matched, unless it has no geometry.
pub fn note_new_shape(new_ids: &mut NameSet, shape_id: &str, empty_geometry: bool)
    ensures
        names_in(*final(new_ids)) == (if empty_geometry {
            names_in(*old(new_ids))
        } else {
            names_in(*old(new_ids)).insert(shape_id@)
        }),
{
    if !empty_geometry {
        name_set_insert(new_ids, shape_id.to_owned());
    }
}

/// Whether a shape of the feed stays: it is neither replaced nor matched anew.
pub fn keeps_shape(shape_id: &str, replaced_ids: &NameSet, new_ids: &NameSet) -> (r: bool)
    ensures
        r == (!names_in(*replaced_ids).contains(shape_id@) && !names_in(*new_ids).contains(
            shape_id@,
        )),
{
    !name_set_contains(replaced_ids, shape_id) && !name_set_contains(new_ids, shape_id)
}

/// Whether the shapes of the feed are read: there are some, and not all are to be wiped.
pub fn reads_old_shapes(has_shapes: bool, all_modes: bool, wipe: bool) -> (r: bool)
    ensures
        r == (has_shapes && !(all_modes && wipe)),
{
    has_shapes && !(all_modes && wipe)
}

/// Shapes of trips, once the first `k` trips of a pattern have got its shape.
pub open spec fn with_trips(
    m: Map<Seq<char>, Seq<char>>,
    ids: Seq<String>,
    trips: Seq<usize>,
    k: int,
    shape: Seq<char>,
) -> Map<Seq<char>, Seq<char>>
    decreases k,
{
    if k <= 0 {
        m
    } else {
        with_trips(m, ids, trips, k - 1, shape).insert(ids[trips[k - 1] as int]@, shape)
    }
}

/// The shapes of the trips of the first `n` patterns, as far as the patterns have some.
pub open spec fn trip_shapes(
    ids: Seq<String>,
    groups: Seq<PatternGroup>,
    shapes: Seq<Option<String>>,
    n: int,
) -> Map<Seq<char>, Seq<char>>
    decreases n,
{
    if n <= 0 {
        Map::empty()
    } else {
        let before = trip_shapes(ids, groups, shapes, n - 1);
        match shapes[n - 1] {
            Some(shape) => with_trips(
                before,
                ids,
                groups[n - 1].trips@,
                groups[n - 1].trips@.len() as int,
                shape@,
            ),
            None => before,
        }
    }
}

fn give_shape(m: &mut TextMap, ids: &Vec<String>, trips: &Vec<usize>, shape: &String)
    requires
        forall|i: int| #![trigger trips@[i]] 0 <= i < trips@.len() ==> trips@[i] < ids@.len(),
    ensures
        texts_of(*final(m)) == with_trips(
            texts_of(*old(m)),
            ids@,
            trips@,
            trips@.len() as int,
            shape@,
        ),
{
    let ghost m0 = texts_of(*m);
    let mut k: usize = 0;
    while k < trips.len()
        invariant
            k <= trips@.len(),
            forall|i: int| #![trigger trips@[i]] 0 <= i < trips@.len() ==> trips@[i] < ids@.len(),
            texts_of(*m) == with_trips(m0, ids@, trips@, k as int, shape@),
        decreases trips@.len() - k,
    {
        assert(trips@[k as int] < ids@.len());
        texts_insert(m, ids[trips[k]].clone(), shape.clone());
        k = k + 1;
    }
}

/// The shapes of trips, by the names of the trips, from the shapes of their patterns.
pub fn shapes_of_trips(
    ids: &Vec<String>,
    groups: &Vec<PatternGroup>,
    shapes: &Vec<Option<String>>,
) -> (r: TextMap)
    requires
        groups@.len() == shapes@.len(),
        forall|g: int, i: int|
            #![trigger groups@[g].trips@[i]]
            0 <= g < groups@.len() && 0 <= i < groups@[g].trips@.len() ==> groups@[g].trips@[i]
                < ids@.len(),
    ensures
        texts_of(r) == trip_shapes(ids@, groups@, shapes@, groups@.len() as int),
{
    let mut r = texts_new();
    let mut n: usize = 0;
    while n < groups.len()
        invariant
            n <= groups@.len(),
            groups@.len() == shapes@.len(),
            forall|g: int, i: int|
                #![trigger groups@[g].trips@[i]]
                0 <= g < groups@.len() && 0 <= i < groups@[g].trips@.len() ==> groups@[g].trips@[i]
                    < ids@.len(),
            texts_of(r) == trip_shapes(ids@, groups@, shapes@, n as int),
        decreases groups@.len() - n,
    {
        if let Some(shape) = &shapes[n] {
            assert forall|i: int|
                #![trigger groups@[n as int].trips@[i]]
                0 <= i < groups@[n as int].trips@.len() implies groups@[n as int].trips@[i]
                < ids@.len() by {}
            give_shape(&mut r, ids, &groups[n].trips, shape);
        }
        n = n + 1;
    }
    r
}

/// Whether a pattern gives a route its colour: it belongs to the route and has one.
pub open spec fn colors(
    routes: Seq<Option<String>>,
    colored: Seq<bool>,
    p: int,
    route: Seq<char>,
) -> bool {
    &&& 0 <= p < routes.len()
    &&& colored[p]
    &&& chars(routes[p]) == Some(route)
}

/// Whether a table holds for each route the first of the first `n` patterns that gives it its colour.
pub open spec fn are_first_colors(
    m: Map<Seq<char>, usize>,
    routes: Seq<Option<String>>,
    colored: Seq<bool>,
    n: int,
) -> bool {
    &&& forall|route: Seq<char>| #[trigger]
        m.contains_key(route) ==> {
            &&& m[route] < n
            &&& colors(routes, colored, m[route] as int, route)
            &&& forall|p: int| #[trigger] colors(routes, colored, p, route) ==> m[route] <= p
        }
    &&& forall|p: int, route: Seq<char>| #[trigger]
        colors(routes, colored, p, route) && p < n ==> m.contains_key(route)
}

/// For each route, by its name, the first pattern that gives it its colour, given the routes of the
/// patterns, as far as they are known, and which patterns have a colour.
pub fn first_colors(routes: &Vec<Option<String>>, colored: &Vec<bool>) -> (r: NameIndex)
    requires
        routes@.len() == colored@.len(),
    ensures
        are_first_colors(names_of(r), routes@, colored@, routes@.len() as int),
{
    let mut r = names_new();
    let mut n: usize = 0;
    while n < routes.len()
        invariant
            n <= routes@.len(),
            routes@.len() == colored@.len(),
            are_first_colors(names_of(r), routes@, colored@, n as int),
        decreases routes@.len() - n,
    {
        let ghost before = names_of(r);
        if let Some(route) = &routes[n] {
            if colored[n] && names_get(&r, route.as_str()).is_none() {
                names_insert(&mut r, route.clone(), n);
            }
        }
        assert forall|p: int, route: Seq<char>| #[trigger]
            colors(routes@, colored@, p, route) && p < n + 1 implies names_of(r).contains_key(
            route,
        ) by {
            if p < n {
                assert(before.contains_key(route));
            }
        }
        assert forall|route: Seq<char>| #[trigger] names_of(r).contains_key(route) implies {
            let m = names_of(r);
            &&& m[route] < n + 1
            &&& colors(routes@, colored@, m[route] as int, route)
            &&& forall|p: int| #[trigger]
                colors(routes@, colored@, p, route) ==> m[route] <= p
        } by {
            if !before.contains_key(route) {
                assert forall|p: int| #[trigger] colors(routes@, colored@, p, route) implies n <= p by {
                    if p < n {
                        assert(before.contains_key(route));
                    }
                }
            }
        }
        n = n + 1;
    }
    r
}

/// Whether one of the trips of a pattern has a name.
pub open spec fn has_trip_named(
    ids: Seq<String>,
    groups: Seq<PatternGroup>,
    g: int,
    name: Seq<char>,
) -> bool {
    exists|i: int|
        0 <= i < groups[g].trips@.len() && ids[(#[trigger] groups[g].trips@[i]) as int]@ == name
}

/// Whether a pattern with a shape gives it to the trips with a name.
pub open spec fn gives_shape(
    ids: Seq<String>,
    groups: Seq<PatternGroup>,
    shapes: Seq<Option<String>>,
    g: int,
    name: Seq<char>,
) -> bool {
    shapes[g] is Some && has_trip_named(ids, groups, g, name)
}

proof fn lemma_with_trips(
    m: Map<Seq<char>, Seq<char>>,
    ids: Seq<String>,
    trips: Seq<usize>,
    k: int,
    shape: Seq<char>,
    name: Seq<char>,
)
    requires
        0 <= k <= trips.len(),
    ensures
        ({
            let r = with_trips(m, ids, trips, k, shape);
            if exists|i: int| 0 <= i < k && ids[(#[trigger] trips[i]) as int]@ == name {
                r.contains_key(name) && r[name] == shape
            } else {
                r.contains_key(name) == m.contains_key(name) && r[name] == m[name]
            }
        }),
    decreases k,
{
    if k > 0 {
        lemma_with_trips(m, ids, trips, k - 1, shape, name);
        let last = ids[trips[k - 1] as int]@;
        assert(last == ids[trips[k - 1] as int]@);
    }
}

/// A trip has the shape of its pattern. If patterns with shapes share the name of a trip, the last of them
/// counts; a trip without such a pattern has no shape.
pub proof fn lemma_trip_shapes(
    ids: Seq<String>,
    groups: Seq<PatternGroup>,
    shapes: Seq<Option<String>>,
    n: int,
    name: Seq<char>,
)
    requires
        0 <= n <= groups.len(),
        groups.len() == shapes.len(),
    ensures
        trip_shapes(ids, groups, shapes, n).contains_key(name) <==> exists|g: int|
            0 <= g < n && #[trigger] gives_shape(ids, groups, shapes, g, name),
        forall|g: int|
            0 <= g < n && #[trigger] gives_shape(ids, groups, shapes, g, name) && (forall|h: int|
                g < h < n ==> !#[trigger] gives_shape(ids, groups, shapes, h, name))
                ==> trip_shapes(ids, groups, shapes, n)[name] == shapes[g]->0@,
    decreases n,
{
    if n > 0 {
        lemma_trip_shapes(ids, groups, shapes, n - 1, name);
        let before = trip_shapes(ids, groups, shapes, n - 1);
        let trips = groups[n - 1].trips@;
        if let Some(shape) = shapes[n - 1] {
            lemma_with_trips(before, ids, trips, trips.len() as int, shape@, name);
        }
        let last = gives_shape(ids, groups, shapes, n - 1, name);
        if last {
            assert(gives_shape(ids, groups, shapes, n - 1, name));
        } else {
            if exists|g: int| 0 <= g < n && #[trigger] gives_shape(ids, groups, shapes, g, name) {
                let g = choose|g: int| 0 <= g < n && #[trigger] gives_shape(
                    ids,
                    groups,
                    shapes,
                    g,
                    name,
                );
                assert(g < n - 1);
            }
        }
    }
}

} // verus!
