//! Which bus routes share a road graph.

use crate::geometry::Point;
use crate::hashed::{tiles_insert, tiles_new, tiles_of, TileSet};
use crate::mots::{category_of, map_route_type_to_category, MotCategory, RouteType};
use crate::tile_graph::RoadProfile;
use crate::tile_loader::{sorted_tiles, tiles_sorted, TileCoord};
use vstd::prelude::*;

verus! {

/// How many tiles a graph may have.
pub const MAX_GROUP_TILES: usize = 50;

/// The road graph that a route uses: coaches have their own.
pub fn road_profile_for_route_type(route_type: Option<RouteType>) -> (r: RoadProfile)
    ensures
        r == (if route_type is Some && category_of(route_type->0) == MotCategory::Coach {
            RoadProfile::Coach
        } else {
            RoadProfile::Bus
        }),
{
    match route_type {
        Some(rt) => {
            if map_route_type_to_category(rt) == MotCategory::Coach {
                RoadProfile::Coach
            } else {
                RoadProfile::Bus
            }
        },
        None => RoadProfile::Bus,
    }
}

/// The places that are known, in their order.
pub open spec fn known(places: Seq<Option<Point>>) -> Seq<Point>
    decreases places.len(),
{
    if places.len() == 0 {
        Seq::empty()
    } else {
        match places.last() {
            Some(p) => known(places.drop_last()).push(p),
            None => known(places.drop_last()),
        }
    }
}

/// The places that are known, in their order.
pub fn known_places(places: &Vec<Option<Point>>) -> (r: Vec<Point>)
    ensures
        r@ == known(places@),
{
    let mut r: Vec<Point> = Vec::new();
    let mut i: usize = 0;
    assert(known(places@.take(0)) =~= Seq::<Point>::empty());
    while i < places.len()
        invariant
            i <= places@.len(),
            r@ == known(places@.take(i as int)),
        decreases places@.len() - i,
    {
        assert(places@.take(i + 1).drop_last() =~= places@.take(i as int));
        if let Some(p) = places[i] {
            r.push(p);
        }
        i = i + 1;
    }
    assert(places@.take(i as int) =~= places@);
    r
}

/// The places of the stops of a pattern that can be matched: it has two stops or more, and all places are
/// known.
pub fn complete_places(places: &Vec<Option<Point>>) -> (r: Option<Vec<Point>>)
    ensures
        match r {
            Some(v) => {
                &&& places@.len() >= 2
                &&& v@.len() == places@.len()
                &&& forall|i: int|
                    #![trigger places@[i]]
                    0 <= i < places@.len() ==> places@[i] == Some(v@[i])
            },
            None => places@.len() < 2 || exists|i: int|
                0 <= i < places@.len() && (#[trigger] places@[i]) is None,
        },
{
    if places.len() < 2 {
        return None;
    }
    let mut r: Vec<Point> = Vec::new();
    let mut i: usize = 0;
    while i < places.len()
        invariant
            i <= places@.len(),
            r@.len() == i,
            forall|k: int| #![trigger places@[k]] 0 <= k < i ==> places@[k] == Some(r@[k]),
        decreases places@.len() - i,
    {
        match places[i] {
            Some(p) => r.push(p),
            None => {
                assert(places@[i as int] is None);
                return None;
            },
        }
        i = i + 1;
    }
    Some(r)
}

/// Whether a pair comes before another: by the key, then by the position.
pub open spec fn key_before(a: (u64, usize), b: (u64, usize)) -> bool {
    a.0 < b.0 || (a.0 == b.0 && a.1 < b.1)
}

/// `slice::sort_unstable` on pairs: puts the same pairs in order, by the first number and then by the
/// second.
#[verifier::external_body]
fn sort_keys(v: &mut Vec<(u64, usize)>)
    ensures
        final(v)@.to_multiset() == old(v)@.to_multiset(),
        forall|i: int, j: int|
            #![trigger final(v)@[i], final(v)@[j]]
            0 <= i < j < final(v)@.len() ==> final(v)@[i].0 < final(v)@[j].0 || (final(v)@[i].0
                == final(v)@[j].0 && final(v)@[i].1 <= final(v)@[j].1),
{
    v.sort_unstable()
}

/// The positions of keys in the order of the keys; equal keys stay in their order.
pub fn order_by_key(keys: &Vec<u64>) -> (r: Vec<usize>)
    ensures
        r@.len() == keys@.len(),
        forall|i: int| #![trigger r@[i]] 0 <= i < r@.len() ==> r@[i] < keys@.len(),
        r@.no_duplicates(),
        forall|i: int, j: int|
            #![trigger r@[i], r@[j]]
            0 <= i < j < r@.len() ==> key_before(
                (keys@[r@[i] as int], r@[i]),
                (keys@[r@[j] as int], r@[j]),
            ),
{
    let mut pairs: Vec<(u64, usize)> = Vec::new();
    let mut k: usize = 0;
    while k < keys.len()
        invariant
            k <= keys@.len(),
            pairs@.len() == k,
            forall|i: int| #![trigger pairs@[i]] 0 <= i < k ==> pairs@[i] == (keys@[i], i as usize),
        decreases keys@.len() - k,
    {
        pairs.push((keys[k], k));
        k = k + 1;
    }
    let ghost p0 = pairs@;
    sort_keys(&mut pairs);
    let ghost p1 = pairs@;
    proof {
        broadcast use vstd::seq_lib::group_to_multiset_ensures;

        assert(p0.no_duplicates()) by {
            assert forall|i: int, j: int| 0 <= i < p0.len() && 0 <= j < p0.len() && i != j implies p0[i]
                != p0[j] by {
                assert(p0[i].1 == i as usize && p0[j].1 == j as usize);
                assert(keys.len() == keys@.len());
            }
        }
        p0.lemma_multiset_has_no_duplicates();
        p1.lemma_multiset_has_no_duplicates_conv();
        assert(p1.len() == p0.len()) by {
            assert(p1.to_multiset().len() == p0.to_multiset().len());
        }
        assert forall|i: int| #![trigger p1[i]] 0 <= i < p1.len() implies p1[i].1 < keys@.len()
            && p1[i].0 == keys@[p1[i].1 as int] by {
            assert(p1.contains(p1[i]));
            assert(p0.to_multiset().count(p1[i]) > 0);
            assert(p0.contains(p1[i]));
            let m = choose|m: int| 0 <= m < p0.len() && p0[m] == p1[i];
            assert(p0[m] == (keys@[m], m as usize));
        }
    }
    let mut r: Vec<usize> = Vec::new();
    let mut j: usize = 0;
    while j < pairs.len()
        invariant
            pairs@ == p1,
            j <= p1.len(),
            r@.len() == j,
            forall|i: int| #![trigger r@[i]] 0 <= i < j ==> r@[i] == p1[i].1,
        decreases p1.len() - j,
    {
        r.push(pairs[j].1);
        j = j + 1;
    }
    proof {
        assert forall|a: int, b: int| 0 <= a < r@.len() && 0 <= b < r@.len() && a != b implies r@[a]
            != r@[b] by {
            assert(r@[a] == p1[a].1 && r@[b] == p1[b].1);
            if p1[a].1 == p1[b].1 {
                assert(p1[a] == p1[b]);
            }
        }
        assert forall|a: int, b: int|
            #![trigger r@[a], r@[b]]
            0 <= a < b < r@.len() implies key_before(
            (keys@[r@[a] as int], r@[a]),
            (keys@[r@[b] as int], r@[b]),
        ) by {
            assert(p1[a] != p1[b]);
            assert(r@[a] == p1[a].1 && r@[b] == p1[b].1);
        }
    }
    r
}

/// A run of routes with the tiles that they need.
pub struct Run {
    pub from: int,
    pub to: int,
    pub tiles: Set<(i32, i32)>,
}

/// The tiles of a list.
pub open spec fn tile_set(tiles: Seq<TileCoord>) -> Set<(i32, i32)> {
    Set::new(|p: (i32, i32)| tiles.contains(TileCoord { x: p.0, y: p.1 }))
}

/// How many of the first `n` tiles of a list are not in a set.
pub open spec fn extra(set: Set<(i32, i32)>, tiles: Seq<TileCoord>, n: int) -> nat
    decreases n,
{
    if n <= 0 {
        0
    } else {
        extra(set, tiles, n - 1) + if set.contains((tiles[n - 1].x, tiles[n - 1].y)) {
            0nat
        } else {
            1
        }
    }
}

/// The runs that are complete once `n` routes have been looked at, and the one that is open. A route
/// joins the open run unless their tiles together would be too many.
pub open spec fn runs(tiles: Seq<Seq<TileCoord>>, n: int) -> (Seq<Run>, Run)
    decreases n,
{
    if n <= 0 {
        (Seq::empty(), Run { from: 0, to: 0, tiles: Set::empty() })
    } else {
        let (done, open) = runs(tiles, n - 1);
        let t = tiles[n - 1];
        let more = extra(open.tiles, t, t.len() as int);
        if open.from < open.to && open.tiles.len() + more > MAX_GROUP_TILES {
            (done.push(open), Run { from: n - 1, to: n, tiles: tile_set(t) })
        } else {
            (
                done,
                Run { from: open.from, to: n, tiles: open.tiles.union(tile_set(t)) },
            )
        }
    }
}

/// All runs of routes.
pub open spec fn all_runs(tiles: Seq<Seq<TileCoord>>) -> Seq<Run> {
    let (done, open) = runs(tiles, tiles.len() as int);
    if open.from < open.to {
        done.push(open)
    } else {
        done
    }
}

/// Runs lie within the list of routes, and each has some.
pub(crate) proof fn lemma_runs_within(tiles: Seq<Seq<TileCoord>>)
    ensures
        forall|i: int|
            #![trigger all_runs(tiles)[i]]
            0 <= i < all_runs(tiles).len() ==> 0 <= all_runs(tiles)[i].from <= all_runs(
                tiles,
            )[i].to <= tiles.len(),
{
    lemma_runs_upto(tiles, tiles.len() as int);
    let (done, open) = runs(tiles, tiles.len() as int);
    assert forall|i: int| #![trigger all_runs(tiles)[i]] 0 <= i < all_runs(tiles).len() implies 0
        <= all_runs(tiles)[i].from <= all_runs(tiles)[i].to <= tiles.len() by {
        if i < done.len() {
            assert(all_runs(tiles)[i] == done[i]);
        }
    }
}

proof fn lemma_runs_upto(tiles: Seq<Seq<TileCoord>>, n: int)
    requires
        0 <= n <= tiles.len(),
    ensures
        0 <= runs(tiles, n).1.from <= runs(tiles, n).1.to == n,
        forall|i: int|
            #![trigger runs(tiles, n).0[i]]
            0 <= i < runs(tiles, n).0.len() ==> 0 <= runs(tiles, n).0[i].from <= runs(
                tiles,
                n,
            ).0[i].to <= n,
    decreases n,
{
    if n > 0 {
        lemma_runs_upto(tiles, n - 1);
        let (done, open) = runs(tiles, n - 1);
        let after = runs(tiles, n).0;
        assert forall|i: int| #![trigger after[i]] 0 <= i < after.len() implies 0 <= after[i].from
            <= after[i].to <= n by {
            if i < done.len() {
                assert(after[i] == done[i]);
            }
        }
    }
}

/// A group of routes, given by their positions from `from` up to but without `to`, and the tiles that
/// they need, in their order.
#[derive(Debug)]
pub struct RouteGroup {
    pub from: usize,
    pub to: usize,
    pub tiles: Vec<TileCoord>,
}

/// Whether a group is a run.
pub open spec fn is_run(g: RouteGroup, r: Run) -> bool {
    &&& g.from == r.from
    &&& g.to == r.to
    &&& tiles_sorted(g.tiles@)
    &&& forall|t: TileCoord| #[trigger] g.tiles@.contains(t) <==> r.tiles.contains((t.x, t.y))
}

fn count_extra(set: &TileSet, tiles: &Vec<TileCoord>) -> (r: usize)
    ensures
        r == extra(tiles_of(*set), tiles@, tiles@.len() as int),
        r <= tiles@.len(),
{
    let mut r: usize = 0;
    let mut k: usize = 0;
    while k < tiles.len()
        invariant
            k <= tiles@.len(),
            r <= k,
            r == extra(tiles_of(*set), tiles@, k as int),
        decreases tiles@.len() - k,
    {
        if !crate::hashed::tiles_contains(set, (tiles[k].x, tiles[k].y)) {
            r = r + 1;
        }
        k = k + 1;
    }
    r
}

/// Puts tiles into a set and counts those in it.
fn add_tiles(set: &mut TileSet, count: usize, tiles: &Vec<TileCoord>) -> (r: usize)
    requires
        tiles_of(*old(set)).finite(),
        count == tiles_of(*old(set)).len(),
        count + extra(tiles_of(*old(set)), tiles@, tiles@.len() as int) <= usize::MAX,
    ensures
        tiles_of(*final(set)) == tiles_of(*old(set)).union(tile_set(tiles@)),
        tiles_of(*final(set)).finite(),
        r == tiles_of(*final(set)).len(),
        r <= count + extra(tiles_of(*old(set)), tiles@, tiles@.len() as int),
{
    let mut r: usize = count;
    let mut k: usize = 0;
    assert(tiles_of(*set) =~= tiles_of(*old(set)).union(tile_set(tiles@.take(0))));
    while k < tiles.len()
        invariant
            k <= tiles@.len(),
            count + extra(tiles_of(*old(set)), tiles@, tiles@.len() as int) <= usize::MAX,
            r <= count + extra(tiles_of(*old(set)), tiles@, k as int),
            tiles_of(*set).finite(),
            r == tiles_of(*set).len(),
            tiles_of(*set) == tiles_of(*old(set)).union(tile_set(tiles@.take(k as int))),
        decreases tiles@.len() - k,
    {
        let ghost s0 = tiles_of(*set);
        let ghost p = (tiles@[k as int].x, tiles@[k as int].y);
        proof {
            lemma_extra_grows(tiles_of(*old(set)), tiles@, k + 1, tiles@.len() as int);
            assert(tiles_of(*old(set)).contains(p) ==> s0.contains(p));
        }
        if tiles_insert(set, (tiles[k].x, tiles[k].y)) {
            r = r + 1;
        } else {
            assert(s0.insert(p) =~= s0);
        }
        proof {
            let a = tiles@.take(k as int);
            let b = tiles@.take(k + 1);
            assert(b =~= a.push(tiles@[k as int]));
            assert(tile_set(b) =~= tile_set(a).insert(p)) by {
                assert forall|q: (i32, i32)| tile_set(b).contains(q) <==> tile_set(a).insert(
                    p,
                ).contains(q) by {
                    let t = TileCoord { x: q.0, y: q.1 };
                    if a.contains(t) {
                        let m = choose|m: int| 0 <= m < a.len() && a[m] == t;
                        assert(b[m] == t);
                    }
                    if q == p {
                        assert(b[k as int] == t);
                    }
                    if b.contains(t) && q != p {
                        let m = choose|m: int| 0 <= m < b.len() && b[m] == t;
                        assert(a[m] == t);
                    }
                }
            }
            assert(tiles_of(*set) =~= tiles_of(*old(set)).union(tile_set(b)));
        }
        k = k + 1;
    }
    assert(tiles@.take(k as int) =~= tiles@);
    r
}

proof fn lemma_extra_bound(set: Set<(i32, i32)>, tiles: Seq<TileCoord>, n: int)
    ensures
        n >= 0 ==> extra(set, tiles, n) <= n,
    decreases n,
{
    if n > 0 {
        lemma_extra_bound(set, tiles, n - 1);
    }
}

proof fn lemma_extra_grows(set: Set<(i32, i32)>, tiles: Seq<TileCoord>, m: int, n: int)
    requires
        m <= n,
    ensures
        extra(set, tiles, m) <= extra(set, tiles, n),
    decreases n,
{
    if m < n && n > 0 {
        lemma_extra_grows(set, tiles, m, n - 1);
    }
}

fn close_run(from: usize, to: usize, set: TileSet) -> (g: RouteGroup)
    ensures
        is_run(g, Run { from: from as int, to: to as int, tiles: tiles_of(set) }),
{
    RouteGroup { from, to, tiles: sorted_tiles(set) }
}

/// Groups routes, one after another, so that no graph has too many tiles, unless a single route needs
/// them.
pub fn group_routes(tiles: &Vec<Vec<TileCoord>>) -> (r: Vec<RouteGroup>)
    ensures
        r@.len() == all_runs(tiles@.map_values(|v: Vec<TileCoord>| v@)).len(),
        forall|i: int|
            #![trigger r@[i]]
            0 <= i < r@.len() ==> is_run(
                r@[i],
                all_runs(tiles@.map_values(|v: Vec<TileCoord>| v@))[i],
            ),
{
    let ghost ls = tiles@.map_values(|v: Vec<TileCoord>| v@);
    let mut r: Vec<RouteGroup> = Vec::new();
    let mut set = tiles_new();
    let mut count: usize = 0;
    let mut from: usize = 0;
    let mut k: usize = 0;
    while k < tiles.len()
        invariant
            ls == tiles@.map_values(|v: Vec<TileCoord>| v@),
            k <= tiles@.len(),
            from <= k,
            tiles_of(set).finite(),
            count == tiles_of(set).len(),
            from == k ==> count == 0,
            runs(ls, k as int).1 == (Run { from: from as int, to: k as int, tiles: tiles_of(set) }),
            r@.len() == runs(ls, k as int).0.len(),
            forall|i: int|
                #![trigger r@[i]]
                0 <= i < r@.len() ==> is_run(r@[i], runs(ls, k as int).0[i]),
        decreases tiles@.len() - k,
    {
        let list = &tiles[k];
        assert(ls[k as int] == list@);
        let more: usize = count_extra(&set, list);
        let ghost before = runs(ls, k as int);
        if from < k && (count > MAX_GROUP_TILES || more > MAX_GROUP_TILES - count) {
            let closed = close_run(from, k, set);
            r.push(closed);
            set = tiles_new();
            from = k;
            proof {
                lemma_extra_bound(tiles_of(set), list@, list@.len() as int);
                assert(list.len() == list@.len());
            }
            count = add_tiles(&mut set, 0, list);
            assert(tiles_of(set) =~= tile_set(list@));
        } else {
            count = add_tiles(&mut set, count, list);
        }
        k = k + 1;
    }
    if from < k {
        let closed = close_run(from, k, set);
        r.push(closed);
    }
    r
}

proof fn lemma_union_size(set: Set<(i32, i32)>, tiles: Seq<TileCoord>, n: int)
    requires
        set.finite(),
        0 <= n <= tiles.len(),
    ensures
        set.union(tile_set(tiles.take(n))).finite(),
        set.union(tile_set(tiles.take(n))).len() <= set.len() + extra(set, tiles, n),
    decreases n,
{
    if n == 0 {
        assert(set.union(tile_set(tiles.take(0))) =~= set);
    } else {
        lemma_union_size(set, tiles, n - 1);
        let a = tiles.take(n - 1);
        let b = tiles.take(n);
        let t = tiles[n - 1];
        let p = (t.x, t.y);
        assert(b =~= a.push(t));
        assert forall|q: (i32, i32)| set.union(tile_set(b)).contains(q) <==> set.union(
            tile_set(a),
        ).insert(p).contains(q) by {
            let u = TileCoord { x: q.0, y: q.1 };
            if a.contains(u) {
                let m = choose|m: int| 0 <= m < a.len() && a[m] == u;
                assert(b[m] == u);
            }
            if q == p {
                assert(b[n - 1] == u);
            }
            if b.contains(u) && q != p {
                let m = choose|m: int| 0 <= m < b.len() && b[m] == u;
                assert(a[m] == u);
            }
        }
        assert(set.union(tile_set(b)) =~= set.union(tile_set(a)).insert(p));
        if set.contains(p) {
            assert(set.union(tile_set(a)).insert(p) =~= set.union(tile_set(a)));
        }
    }
}

/// Whether runs follow one another without gaps, from the first route on, and one with several routes
/// has no more tiles than a graph may have.
pub open spec fn sound_runs(done: Seq<Run>, open: Run, n: int) -> bool {
    &&& open.to == n
    &&& open.tiles.finite()
    &&& done.len() == 0 ==> open.from == 0
    &&& done.len() > 0 ==> done[0].from == 0 && done.last().to == open.from
    &&& open.to - open.from > 1 ==> open.tiles.len() <= MAX_GROUP_TILES
    &&& forall|i: int|
        #![trigger done[i]]
        0 <= i < done.len() ==> done[i].from < done[i].to && (done[i].to - done[i].from > 1
            ==> done[i].tiles.len() <= MAX_GROUP_TILES)
    &&& forall|i: int, j: int|
        #![trigger done[i], done[j]]
        0 <= i && j == i + 1 && j < done.len() ==> done[i].to == done[j].from
}

/// Every route belongs to exactly one run, and a run with several routes has no more tiles than a graph
/// may have.
pub proof fn lemma_runs(tiles: Seq<Seq<TileCoord>>, n: int)
    requires
        0 <= n <= tiles.len(),
    ensures
        sound_runs(runs(tiles, n).0, runs(tiles, n).1, n),
        n > 0 ==> runs(tiles, n).1.from < n,
    decreases n,
{
    if n > 0 {
        lemma_runs(tiles, n - 1);
        let (done, open) = runs(tiles, n - 1);
        let t = tiles[n - 1];
        assert(t.take(t.len() as int) =~= t);
        lemma_union_size(open.tiles, t, t.len() as int);
        lemma_union_size(Set::empty(), t, t.len() as int);
        assert(Set::<(i32, i32)>::empty().union(tile_set(t)) =~= tile_set(t));
        let (d, o) = runs(tiles, n);
        assert forall|i: int, j: int|
            #![trigger d[i], d[j]]
            0 <= i && j == i + 1 && j < d.len() implies d[i].to == d[j].from by {
            if j < done.len() {
                assert(done[i].to == done[j].from);
            }
        }
    }
}

// What the runs of routes are.

/// Whether a run has the tiles that its routes need, and no others.
pub open spec fn has_tiles_of_routes(tiles: Seq<Seq<TileCoord>>, run: Run) -> bool {
    forall|p: (i32, i32)| #[trigger]
        run.tiles.contains(p) <==> is_needed_by(tiles, run.from, run.to, TileCoord { x: p.0, y: p.1 })
}

/// Whether one of the routes from `from` up to but without `to` needs a tile.
pub open spec fn is_needed_by(tiles: Seq<Seq<TileCoord>>, from: int, to: int, t: TileCoord) -> bool {
    exists|j: int| from <= j < to && #[trigger] tiles[j].contains(t)
}

/// Whether a run could not take the next route: together they need more than fifty tiles.
pub open spec fn is_full(tiles: Seq<Seq<TileCoord>>, run: Run) -> bool {
    &&& 0 <= run.to < tiles.len()
    &&& tiles[run.to].no_duplicates() ==> run.tiles.union(tile_set(tiles[run.to])).len() > 50
}

proof fn lemma_union_exact(set: Set<(i32, i32)>, tiles: Seq<TileCoord>, n: int)
    requires
        set.finite(),
        0 <= n <= tiles.len(),
        tiles.no_duplicates(),
    ensures
        set.union(tile_set(tiles.take(n))).finite(),
        set.union(tile_set(tiles.take(n))).len() == set.len() + extra(set, tiles, n),
    decreases n,
{
    if n == 0 {
        assert(set.union(tile_set(tiles.take(0))) =~= set);
    } else {
        lemma_union_exact(set, tiles, n - 1);
        let a = tiles.take(n - 1);
        let b = tiles.take(n);
        let t = tiles[n - 1];
        let p = (t.x, t.y);
        assert(b =~= a.push(t));
        assert forall|q: (i32, i32)| set.union(tile_set(b)).contains(q) <==> set.union(
            tile_set(a),
        ).insert(p).contains(q) by {
            let u = TileCoord { x: q.0, y: q.1 };
            if a.contains(u) {
                let m = choose|m: int| 0 <= m < a.len() && a[m] == u;
                assert(b[m] == u);
            }
            if q == p {
                assert(b[n - 1] == u);
            }
            if b.contains(u) && q != p {
                let m = choose|m: int| 0 <= m < b.len() && b[m] == u;
                assert(a[m] == u);
            }
        }
        assert(set.union(tile_set(b)) =~= set.union(tile_set(a)).insert(p));
        assert(!tile_set(a).contains(p)) by {
            if a.contains(t) {
                let m = choose|m: int| 0 <= m < a.len() && a[m] == t;
                assert(tiles[m] == tiles[n - 1]);
            }
        }
        if set.contains(p) {
            assert(set.union(tile_set(a)).insert(p) =~= set.union(tile_set(a)));
        }
    }
}

/// The tiles of a run are those that its routes need. A run ends only where the next route, whose list names no
/// tile twice, would bring it above fifty tiles: it is as long as it can be.
pub proof fn lemma_runs_are_longest(tiles: Seq<Seq<TileCoord>>, n: int)
    requires
        0 <= n <= tiles.len(),
    ensures
        has_tiles_of_routes(tiles, runs(tiles, n).1),
        forall|i: int|
            0 <= i < runs(tiles, n).0.len() ==> has_tiles_of_routes(
                tiles,
                #[trigger] runs(tiles, n).0[i],
            ) && is_full(tiles, runs(tiles, n).0[i]),
    decreases n,
{
    if n > 0 {
        lemma_runs_are_longest(tiles, n - 1);
        lemma_runs(tiles, n - 1);
        lemma_runs_upto(tiles, n - 1);
        let (done, open) = runs(tiles, n - 1);
        let (d, o) = runs(tiles, n);
        let t = tiles[n - 1];
        assert(t.take(t.len() as int) =~= t);
        if t.no_duplicates() {
            lemma_union_exact(open.tiles, t, t.len() as int);
        }
        assert forall|p: (i32, i32)| #[trigger] o.tiles.contains(p) <==> is_needed_by(
            tiles,
            o.from,
            o.to,
            TileCoord { x: p.0, y: p.1 },
        ) by {
            let c = TileCoord { x: p.0, y: p.1 };
            if o.from < n - 1 && open.tiles.contains(p) {
                let j = choose|j: int| open.from <= j < open.to && #[trigger] tiles[j].contains(c);
                assert(tiles[j].contains(c));
            }
            if t.contains(c) {
                assert(tiles[n - 1].contains(c));
            }
            if is_needed_by(tiles, o.from, o.to, c) {
                let j = choose|j: int| o.from <= j < o.to && #[trigger] tiles[j].contains(c);
                if j < n - 1 {
                    assert(is_needed_by(tiles, open.from, open.to, c));
                    assert(open.tiles.contains(p));
                }
            }
            if o.from == n - 1 && open.from == n - 1 {
                assert(!is_needed_by(tiles, open.from, open.to, c));
                assert(!open.tiles.contains(p));
            }
        }
        assert forall|i: int| 0 <= i < d.len() implies has_tiles_of_routes(tiles, #[trigger] d[i])
            && is_full(tiles, d[i]) by {
            if i < done.len() {
                assert(d[i] == done[i]);
            }
        }
    }
}

/// The known places are all that are there, in their order.
pub proof fn lemma_known(places: Seq<Option<Point>>)
    ensures
        known(places) == places.filter(|p: Option<Point>| p is Some).map_values(
            |p: Option<Point>| p->0,
        ),
    decreases places.len(),
{
    reveal(Seq::filter);
    if places.len() > 0 {
        lemma_known(places.drop_last());
        assert(known(places) =~= places.filter(|p: Option<Point>| p is Some).map_values(
            |p: Option<Point>| p->0,
        ));
    }
}

} // verus!
