//! Which bus routes are matched together, and on which tiles.

use crate::agencies::{are_groups, group_by_agency, keys, positions_of, AgencyGroup};
use crate::geometry::Point;
use crate::grouping::{all_runs, group_routes, key_before, order_by_key, Run};
use crate::hilbert::{centroid, place_on_curve, route_hilbert_index};
use crate::tile_graph::RoadProfile;
use crate::tile_loader::{compute_route_tiles, route_needs, tiles_sorted, TileCoord};
use vstd::prelude::*;
use vstd::slice::slice_to_vec;

verus! {

/// Routes of an agency that share a road graph, by their positions, and the tiles of the graph.
#[derive(Debug)]
pub struct Batch {
    pub agency: String,
    pub profile: RoadProfile,
    pub members: Vec<usize>,
    pub tiles: Vec<TileCoord>,
}

/// By what the routes of an agency are ordered: where the middle of their stops lies on the curve, and then
/// by their positions.
pub open spec fn rank(places: Seq<Vec<Point>>, p: usize) -> (u64, usize) {
    (place_on_curve(centroid(places[p as int]@)) as u64, p)
}

/// Whether routes are those of a list that have two known stops or more, in their order.
pub open spec fn is_arranged(
    places: Seq<Vec<Point>>,
    patterns: Seq<usize>,
    routes: Seq<usize>,
) -> bool {
    &&& forall|p: usize| #[trigger]
        routes.contains(p) <==> patterns.contains(p) && places[p as int]@.len() >= 2
    &&& forall|i: int, j: int|
        #![trigger routes[i], routes[j]]
        0 <= i < j < routes.len() ==> key_before(
            rank(places, routes[i]),
            rank(places, routes[j]),
        )
}

/// Whether the lists hold the tiles that the routes need, each in its order.
pub open spec fn are_needed(
    places: Seq<Vec<Point>>,
    routes: Seq<usize>,
    tiles: Seq<Seq<TileCoord>>,
) -> bool {
    &&& tiles.len() == routes.len()
    &&& forall|i: int|
        #![trigger tiles[i]]
        0 <= i < tiles.len() ==> {
            let stops = places[routes[i] as int]@;
            &&& tiles_sorted(tiles[i])
            &&& forall|t: TileCoord| #[trigger]
                tiles[i].contains(t) <==> route_needs(stops, stops.len() - 1, t)
        }
}

/// Whether a batch is a run of the routes of an agency.
pub open spec fn is_batch(b: Batch, g: AgencyGroup, routes: Seq<usize>, run: Run) -> bool {
    &&& b.agency@ == g.agency@
    &&& b.profile == g.profile
    &&& b.members@ == routes.subrange(run.from, run.to)
    &&& tiles_sorted(b.tiles@)
    &&& forall|t: TileCoord| #[trigger] b.tiles@.contains(t) <==> run.tiles.contains((t.x, t.y))
}

/// Whether the batches are the runs of the routes of an agency.
pub open spec fn are_runs(
    g: AgencyGroup,
    places: Seq<Vec<Point>>,
    routes: Seq<usize>,
    tiles: Seq<Seq<TileCoord>>,
    batches: Seq<Batch>,
) -> bool {
    &&& is_arranged(places, g.patterns@, routes)
    &&& are_needed(places, routes, tiles)
    &&& batches.len() == all_runs(tiles).len()
    &&& forall|k: int|
        #![trigger batches[k]]
        0 <= k < batches.len() ==> is_batch(batches[k], g, routes, all_runs(tiles)[k])
}

/// Whether the batches are those of one agency.
pub open spec fn is_part(g: AgencyGroup, places: Seq<Vec<Point>>, batches: Seq<Batch>) -> bool {
    exists|routes: Seq<usize>, tiles: Seq<Seq<TileCoord>>| #[trigger]
        are_runs(g, places, routes, tiles, batches)
}

/// Whether the batches are those of the first `n` agencies, one agency after the other.
pub open spec fn are_parts(
    groups: Seq<AgencyGroup>,
    places: Seq<Vec<Point>>,
    n: int,
    batches: Seq<Batch>,
) -> bool
    decreases n,
{
    if n <= 0 {
        batches.len() == 0
    } else {
        exists|m: int|
            #![trigger batches.take(m)]
            0 <= m <= batches.len() && are_parts(groups, places, n - 1, batches.take(m)) && is_part(
                groups[n - 1],
                places,
                batches.skip(m),
            )
    }
}

/// The positions of the routes with a key ascend.
proof fn lemma_positions_ascend(all: Seq<crate::agencies::Key>, n: int, key: crate::agencies::Key)
    requires
        0 <= n <= all.len(),
        n <= usize::MAX,
    ensures
        forall|i: int|
            #![trigger positions_of(all, n, key)[i]]
            0 <= i < positions_of(all, n, key).len() ==> positions_of(all, n, key)[i] < n,
        forall|i: int, j: int|
            #![trigger positions_of(all, n, key)[i], positions_of(all, n, key)[j]]
            0 <= i < j < positions_of(all, n, key).len() ==> positions_of(all, n, key)[i]
                < positions_of(all, n, key)[j],
    decreases n,
{
    if n > 0 {
        lemma_positions_ascend(all, n - 1, key);
        let a = positions_of(all, n - 1, key);
        let b = positions_of(all, n, key);
        assert forall|i: int| #![trigger b[i]] 0 <= i < b.len() implies b[i] < n by {
            if i < a.len() {
                assert(b[i] == a[i]);
            }
        }
        assert forall|i: int, j: int| #![trigger b[i], b[j]] 0 <= i < j < b.len() implies b[i]
            < b[j] by {
            assert(b[i] == a[i]);
            if j < a.len() {
                assert(b[j] == a[j]);
            }
        }
    }
}

/// The routes of a list that have two known stops or more, in their order.
fn arrange(patterns: &Vec<usize>, places: &Vec<Vec<Point>>) -> (r: Vec<usize>)
    requires
        forall|i: int| #![trigger patterns@[i]] 0 <= i < patterns@.len() ==> patterns@[i] < places@.len(),
        forall|i: int, j: int|
            #![trigger patterns@[i], patterns@[j]]
            0 <= i < j < patterns@.len() ==> patterns@[i] < patterns@[j],
    ensures
        is_arranged(places@, patterns@, r@),
        forall|i: int| #![trigger r@[i]] 0 <= i < r@.len() ==> r@[i] < places@.len(),
{
    let mut routes: Vec<usize> = Vec::new();
    let mut ranks: Vec<u64> = Vec::new();
    let mut k: usize = 0;
    while k < patterns.len()
        invariant
            k <= patterns@.len(),
            forall|i: int|
                #![trigger patterns@[i]]
                0 <= i < patterns@.len() ==> patterns@[i] < places@.len(),
            forall|i: int, j: int|
                #![trigger patterns@[i], patterns@[j]]
                0 <= i < j < patterns@.len() ==> patterns@[i] < patterns@[j],
            ranks@.len() == routes@.len(),
            forall|i: int|
                #![trigger routes@[i]]
                0 <= i < routes@.len() ==> routes@[i] < places@.len()
                    && places@[routes@[i] as int]@.len() >= 2 && ranks@[i] == rank(
                    places@,
                    routes@[i],
                ).0,
            forall|i: int, j: int|
                #![trigger routes@[i], routes@[j]]
                0 <= i < j < routes@.len() ==> routes@[i] < routes@[j],
            forall|i: int, j: int|
                #![trigger routes@[i], patterns@[j]]
                0 <= i < routes@.len() && k <= j < patterns@.len() ==> routes@[i] < patterns@[j],
            forall|p: usize| #[trigger]
                routes@.contains(p) <==> patterns@.take(k as int).contains(p)
                    && places@[p as int]@.len() >= 2,
        decreases patterns@.len() - k,
    {
        let p: usize = patterns[k];
        let ghost r0 = routes@;
        let ghost a = patterns@.take(k as int);
        let ghost b = patterns@.take(k + 1);
        assert(patterns@[k as int] < places@.len());
        assert(b =~= a.push(p));
        if places[p].len() >= 2 {
            ranks.push(route_hilbert_index(&places[p]));
            routes.push(p);
        }
        assert forall|q: usize| #[trigger] routes@.contains(q) <==> b.contains(q)
            && places@[q as int]@.len() >= 2 by {
            assert(b.contains(q) <==> a.contains(q) || q == p) by {
                lemma_push_contains(a, p, q);
            }
            assert(r0.contains(q) <==> a.contains(q) && places@[q as int]@.len() >= 2);
            if places@[p as int]@.len() >= 2 {
                assert(routes@ =~= r0.push(p));
                lemma_push_contains(r0, p, q);
            }
        }
        k = k + 1;
    }
    assert(patterns@.take(k as int) =~= patterns@);
    let order = order_by_key(&ranks);
    let mut r: Vec<usize> = Vec::new();
    let mut i: usize = 0;
    while i < order.len()
        invariant
            i <= order@.len(),
            order@.len() == routes@.len(),
            forall|j: int| #![trigger order@[j]] 0 <= j < order@.len() ==> order@[j] < routes@.len(),
            r@.len() == i,
            forall|j: int| #![trigger r@[j]] 0 <= j < i ==> r@[j] == routes@[order@[j] as int],
        decreases order@.len() - i,
    {
        assert(order@[i as int] < routes@.len());
        r.push(routes[order[i]]);
        i = i + 1;
    }
    proof {
        assert forall|p: usize| #[trigger] r@.contains(p) <==> routes@.contains(p) by {
            if r@.contains(p) {
                let j = choose|j: int| 0 <= j < r@.len() && r@[j] == p;
                assert(r@[j] == routes@[order@[j] as int]);
            }
            if routes@.contains(p) {
                let m = choose|m: int| 0 <= m < routes@.len() && routes@[m] == p;
                lemma_all_there(order@, m as usize);
                let j = choose|j: int| 0 <= j < order@.len() && order@[j] == m as usize;
                assert(r@[j] == p);
            }
        }
        assert forall|x: int, y: int| #![trigger r@[x], r@[y]] 0 <= x < y < r@.len() implies key_before(
            rank(places@, r@[x]),
            rank(places@, r@[y]),
        ) by {
            let a = order@[x];
            let b = order@[y];
            assert(routes@[a as int] == r@[x] && routes@[b as int] == r@[y]);
            assert(key_before((ranks@[a as int], a), (ranks@[b as int], b)));
        }
        assert forall|j: int| #![trigger r@[j]] 0 <= j < r@.len() implies r@[j] < places@.len() by {
            assert(r@[j] == routes@[order@[j] as int]);
        }
    }
    r
}

proof fn lemma_push_contains(s: Seq<usize>, x: usize, y: usize)
    ensures
        s.push(x).contains(y) <==> s.contains(y) || x == y,
{
    let t = s.push(x);
    if s.contains(y) {
        let i = choose|i: int| 0 <= i < s.len() && s[i] == y;
        assert(t[i] == y);
    }
    if x == y {
        assert(t[s.len() as int] == y);
    }
    if t.contains(y) && x != y {
        let i = choose|i: int| 0 <= i < t.len() && t[i] == y;
        assert(s[i] == y);
    }
}

/// Numbers below a bound, as many as there are and none twice, are all there.
proof fn lemma_all_there(order: Seq<usize>, m: usize)
    requires
        order.no_duplicates(),
        m < order.len(),
        forall|i: int| #![trigger order[i]] 0 <= i < order.len() ==> order[i] < order.len(),
    ensures
        order.contains(m),
{
    let n = order.len();
    let all = order.to_set();
    order.unique_seq_to_set();
    if !order.contains(m) {
        let ints = all.map(|x: usize| x as int);
        let range = vstd::set_lib::set_int_range(0, n as int);
        vstd::set_lib::lemma_int_range(0, n as int);
        assert(ints.subset_of(range.remove(m as int))) by {
            assert forall|y: int| ints.contains(y) implies range.remove(m as int).contains(y) by {
                let x = choose|x: usize| all.contains(x) && x as int == y;
                let i = choose|i: int| 0 <= i < order.len() && order[i] == x;
                assert(order[i] < order.len());
            }
        }
        vstd::set_lib::lemma_len_subset(ints, range.remove(m as int));
        vstd::set_lib::lemma_map_size(all, ints, |x: usize| x as int);
    }
}

/// The tiles that routes need.
fn tiles_of_routes(routes: &Vec<usize>, places: &Vec<Vec<Point>>) -> (r: Vec<Vec<TileCoord>>)
    requires
        forall|i: int|
            #![trigger routes@[i]]
            0 <= i < routes@.len() ==> routes@[i] < places@.len()
                && places@[routes@[i] as int]@.len() >= 2,
    ensures
        are_needed(places@, routes@, r@.map_values(|v: Vec<TileCoord>| v@)),
{
    let mut r: Vec<Vec<TileCoord>> = Vec::new();
    let mut i: usize = 0;
    while i < routes.len()
        invariant
            i <= routes@.len(),
            forall|i: int|
                #![trigger routes@[i]]
                0 <= i < routes@.len() ==> routes@[i] < places@.len()
                    && places@[routes@[i] as int]@.len() >= 2,
            r@.len() == i,
            forall|j: int|
                #![trigger r@[j]]
                0 <= j < i ==> {
                    let stops = places@[routes@[j] as int]@;
                    &&& tiles_sorted(r@[j]@)
                    &&& forall|t: TileCoord| #[trigger]
                        r@[j]@.contains(t) <==> route_needs(stops, stops.len() - 1, t)
                },
        decreases routes@.len() - i,
    {
        assert(routes@[i as int] < places@.len());
        r.push(compute_route_tiles(&places[routes[i]]));
        i = i + 1;
    }
    proof {
        let tiles = r@.map_values(|v: Vec<TileCoord>| v@);
        assert forall|j: int| #![trigger tiles[j]] 0 <= j < tiles.len() implies {
            let stops = places@[routes@[j] as int]@;
            &&& tiles_sorted(tiles[j])
            &&& forall|t: TileCoord| #[trigger]
                tiles[j].contains(t) <==> route_needs(stops, stops.len() - 1, t)
        } by {
            assert(tiles[j] == r@[j]@);
        }
    }
    r
}

/// The batches of one agency.
fn batches_of(group: &AgencyGroup, places: &Vec<Vec<Point>>) -> (r: Vec<Batch>)
    requires
        forall|i: int|
            #![trigger group.patterns@[i]]
            0 <= i < group.patterns@.len() ==> group.patterns@[i] < places@.len(),
        forall|i: int, j: int|
            #![trigger group.patterns@[i], group.patterns@[j]]
            0 <= i < j < group.patterns@.len() ==> group.patterns@[i] < group.patterns@[j],
    ensures
        is_part(*group, places@, r@),
{
    let routes = arrange(&group.patterns, places);
    assert forall|i: int| #![trigger routes@[i]] 0 <= i < routes@.len() implies routes@[i]
        < places@.len() && places@[routes@[i] as int]@.len() >= 2 by {
        assert(routes@.contains(routes@[i]));
    }
    let tiles = tiles_of_routes(&routes, places);
    let ghost lists = tiles@.map_values(|v: Vec<TileCoord>| v@);
    let runs = group_routes(&tiles);
    proof {
        crate::grouping::lemma_runs_within(lists);
    }
    let mut r: Vec<Batch> = Vec::new();
    let mut k: usize = 0;
    while k < runs.len()
        invariant
            k <= runs@.len(),
            runs@.len() == all_runs(lists).len(),
            lists.len() == routes@.len(),
            forall|i: int|
                #![trigger runs@[i]]
                0 <= i < runs@.len() ==> crate::grouping::is_run(runs@[i], all_runs(lists)[i]),
            forall|i: int|
                #![trigger all_runs(lists)[i]]
                0 <= i < all_runs(lists).len() ==> 0 <= all_runs(lists)[i].from <= all_runs(
                    lists,
                )[i].to <= lists.len(),
            r@.len() == k,
            forall|i: int|
                #![trigger r@[i]]
                0 <= i < k ==> is_batch(r@[i], *group, routes@, all_runs(lists)[i]),
        decreases runs@.len() - k,
    {
        let run = &runs[k];
        assert(crate::grouping::is_run(*run, all_runs(lists)[k as int]));
        let members = slice_to_vec(vstd::slice::slice_subrange(routes.as_slice(), run.from, run.to));
        assert(members@ =~= routes@.subrange(run.from as int, run.to as int));
        let list = slice_to_vec(run.tiles.as_slice());
        assert(list@ =~= run.tiles@);
        r.push(
            Batch { agency: group.agency.clone(), profile: group.profile, members, tiles: list },
        );
        k = k + 1;
    }
    assert(are_runs(*group, places@, routes@, lists, r@));
    r
}

/// Which bus routes are matched together: those of an agency and a profile, in the order of the names. Of
/// those, routes with two known stops or more, in the order of the curve, share a road graph as long as it
/// has not too many tiles.
pub fn plan_batches(
    names: &Vec<String>,
    profiles: &Vec<RoadProfile>,
    places: &Vec<Vec<Point>>,
) -> (r: Vec<Batch>)
    requires
        names@.len() == profiles@.len(),
        names@.len() == places@.len(),
    ensures
        exists|groups: Seq<AgencyGroup>| #[trigger]
            are_groups(groups, keys(names@, profiles@), names@.len() as int) && are_parts(
                groups,
                places@,
                groups.len() as int,
                r@,
            ),
{
    let groups = group_by_agency(names, profiles);
    let ghost all = keys(names@, profiles@);
    assert(names.len() == names@.len());
    let mut r: Vec<Batch> = Vec::new();
    let mut k: usize = 0;
    while k < groups.len()
        invariant
            k <= groups@.len(),
            names@.len() == places@.len(),
            names@.len() <= usize::MAX,
            all.len() == names@.len(),
            are_groups(groups@, all, names@.len() as int),
            are_parts(groups@, places@, k as int, r@),
        decreases groups@.len() - k,
    {
        proof {
            let g = groups@[k as int];
            lemma_positions_ascend(all, names@.len() as int, crate::agencies::key_of(g));
            assert(g.patterns@ == positions_of(
                all,
                names@.len() as int,
                crate::agencies::key_of(g),
            ));
        }
        let mut part = batches_of(&groups[k], places);
        let ghost before = r@;
        let ghost more = part@;
        r.append(&mut part);
        proof {
            assert(r@ =~= before + more);
            assert(r@.take(before.len() as int) =~= before);
            assert(r@.skip(before.len() as int) =~= more);
        }
        k = k + 1;
    }
    r
}

} // verus!
