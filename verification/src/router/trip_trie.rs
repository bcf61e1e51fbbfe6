//! Trips, merged along the stops that they have in common.

use crate::geometry::Point;
use crate::hashed::{
    names_insert, names_is_empty, names_new, names_of, trips_in, trips_new, trips_push, NameIndex,
    TripLists,
};
use crate::router::weights::{first_name, RoutingAttrs};
use crate::text::str_eq;
use vstd::prelude::*;

verus! {

/// A stop of a trip.
pub struct TrieStop {
    pub name: String,
    pub platform: String,
    pub pos: Point,
    /// The number by which the caller knows the position.
    pub place: usize,
    /// How far it is from here to each of the caller's places, by their numbers, in nanometres, rounded
    /// down.
    pub distances_nm: Vec<u64>,
    /// Times in seconds after midnight.
    pub arrival: Option<u32>,
    pub departure: Option<u32>,
}

/// A trip.
pub struct TrieTrip {
    pub id: String,
    pub stop_times: Vec<TrieStop>,
}

/// An arrival at a stop or a departure from it.
pub struct TrieStep {
    pub stop: usize,
    pub arr: bool,
    /// Seconds after the trip's first departure.
    pub time: i64,
}

/// An arrival or a departure that several trips may have in common.
#[derive(Debug)]
pub struct TripTrieNd {
    pub stop_name: String,
    pub platform: String,
    pub pos: Point,
    pub place: usize,
    pub time: i64,
    pub arr: bool,
    pub trip_time: i64,
    pub trips: u64,
    pub parent: Option<usize>,
    pub childs: Vec<usize>,
    pub r_attrs: RoutingAttrs,
    pub acc_time: i128,
}

/// A tree of arrivals and departures. Each trip is a way from the root.
pub struct TripTrie {
    nds: Vec<TripTrieNd>,
    /// The nodes at which trips end, with the trips.
    nd_trips: TripLists,
    /// The node at which each trip ends.
    trip_nds: NameIndex,
    adds: u64,
}

/// Whether a stop is less than a metre from one of the places whose distances are known.
pub open spec fn within_metre(place: usize, stop: TrieStop) -> bool {
    &&& place < stop.distances_nm@.len()
    &&& stop.distances_nm@[place as int] < 1_000_000_000
}

/// Whether a node stands for an arrival or departure at the stop. If `time_ex` is set, the time has
/// to agree, too.
pub open spec fn nd_matches(nd: TripTrieNd, stop: TrieStop, time: i64, time_ex: bool) -> bool {
    &&& nd.stop_name@ == stop.name@
    &&& nd.platform@ == stop.platform@
    &&& within_metre(nd.place, stop)
    &&& !time_ex || nd.time == time
}

/// The first of the children that matches.
pub open spec fn first_match(
    nds: Seq<TripTrieNd>,
    childs: Seq<usize>,
    stop: TrieStop,
    time: i64,
    time_ex: bool,
) -> Option<usize>
    decreases childs.len(),
{
    if childs.len() == 0 {
        None
    } else {
        match first_match(nds, childs.drop_last(), stop, time, time_ex) {
            Some(c) => Some(c),
            None => if nd_matches(nds[childs.last() as int], stop, time, time_ex) {
                Some(childs.last())
            } else {
                None
            },
        }
    }
}

/// The time of a stop after the first departure, zero if it is not known.
pub open spec fn rel_time(t: Option<u32>, start: u32) -> i64 {
    match t {
        Some(x) => (x - start) as i64,
        None => 0,
    }
}

pub open spec fn start_secs(stops: Seq<TrieStop>) -> u32 {
    match stops[0].departure {
        Some(t) => t,
        None => 0,
    }
}

/// The arrivals and departures at the first `n` stops of a trip. There is no arrival at the first
/// stop and no departure from the last.
pub open spec fn steps_upto(stops: Seq<TrieStop>, n: int) -> Seq<TrieStep>
    decreases n,
{
    if n <= 0 {
        Seq::empty()
    } else {
        let i = n - 1;
        let start = start_secs(stops);
        let rest = steps_upto(stops, i);
        let with_arr = if i > 0 {
            rest.push(
                TrieStep { stop: i as usize, arr: true, time: rel_time(stops[i].arrival, start) },
            )
        } else {
            rest
        };
        if i < stops.len() - 1 {
            with_arr.push(
                TrieStep {
                    stop: i as usize,
                    arr: false,
                    time: rel_time(stops[i].departure, start),
                },
            )
        } else {
            with_arr
        }
    }
}

/// The arrivals and departures of a trip.
pub open spec fn steps_of(trip: TrieTrip) -> Seq<TrieStep> {
    steps_upto(trip.stop_times@, trip.stop_times@.len() as int)
}

/// The node that the first `k` steps lead to from the root, always by the first child that matches.
pub open spec fn descend(
    nds: Seq<TripTrieNd>,
    stops: Seq<TrieStop>,
    steps: Seq<TrieStep>,
    time_ex: bool,
    k: int,
) -> Option<usize>
    decreases k,
{
    if k <= 0 {
        Some(0)
    } else {
        match descend(nds, stops, steps, time_ex, k - 1) {
            Some(n) => first_match(
                nds,
                nds[n as int].childs@,
                stops[steps[k - 1].stop as int],
                steps[k - 1].time,
                time_ex,
            ),
            None => None,
        }
    }
}

/// The node at which a trip ends, if the tree has it.
pub open spec fn find(nds: Seq<TripTrieNd>, trip: TrieTrip, time_ex: bool) -> Option<usize> {
    if trip.stop_times@.len() == 0 {
        None
    } else {
        descend(nds, trip.stop_times@, steps_of(trip), time_ex, steps_of(trip).len() as int)
    }
}

/// Whether the nodes form a tree with its root at the beginning: a parent stands before its
/// children, and the two know each other. Arrivals and departures alternate.
#[verifier::opaque]
pub open spec fn is_tree(nds: Seq<TripTrieNd>) -> bool {
    &&& nds.len() > 0
    &&& nds[0].parent is None
    &&& !nds[0].arr
    &&& forall|i: int|
        #![trigger nds[i]]
        0 < i < nds.len() ==> {
            &&& nds[i].parent is Some
            &&& nds[i].parent->0 < i
            &&& nds[nds[i].parent->0 as int].childs@.contains(i as usize)
            &&& nds[i].arr == (nds[i].parent->0 != 0 && !nds[nds[i].parent->0 as int].arr)
        }
    &&& forall|n: int, k: int|
        #![trigger nds[n].childs@[k]]
        0 <= n < nds.len() && 0 <= k < nds[n].childs@.len() ==> {
            let c = nds[n].childs@[k];
            n < c < nds.len() && nds[c as int].parent == Some(n as usize)
        }
    &&& forall|n: int|
        #![trigger nds[n]]
        0 <= n < nds.len() ==> nds[n].childs@.no_duplicates()
}

/// A child stands behind its parent and knows it.
pub proof fn lemma_child(nds: Seq<TripTrieNd>, n: int, k: int)
    requires
        is_tree(nds),
        0 <= n < nds.len(),
        0 <= k < nds[n].childs@.len(),
    ensures
        n < nds[n].childs@[k] < nds.len(),
        nds[nds[n].childs@[k] as int].parent == Some(n as usize),
        nds[nds[n].childs@[k] as int].arr == (n != 0 && !nds[n].arr),
{
    reveal(is_tree);
    let c = nds[n].childs@[k];
    assert(nds[c as int].parent == Some(n as usize));
}

/// No child is listed twice.
pub proof fn lemma_childs_distinct(nds: Seq<TripTrieNd>, n: int, i: int, j: int)
    requires
        is_tree(nds),
        0 <= n < nds.len(),
        0 <= i < nds[n].childs@.len(),
        0 <= j < nds[n].childs@.len(),
        nds[n].childs@[i] == nds[n].childs@[j],
    ensures
        i == j,
{
    reveal(is_tree);
    assert(nds[n].childs@.no_duplicates());
}

/// A tree has a root.
pub proof fn lemma_root(nds: Seq<TripTrieNd>)
    requires
        is_tree(nds),
    ensures
        nds.len() > 0,
        nds[0].parent is None,
        !nds[0].arr,
{
    reveal(is_tree);
}

/// A parent stands before its child.
pub proof fn lemma_parent(nds: Seq<TripTrieNd>, i: int)
    requires
        is_tree(nds),
        0 < i < nds.len(),
    ensures
        nds[i].parent is Some,
        nds[i].parent->0 < i,
        nds[nds[i].parent->0 as int].childs@.contains(i as usize),
        nds[i].arr == (nds[i].parent->0 != 0 && !nds[nds[i].parent->0 as int].arr),
{
    reveal(is_tree);
}

/// Bounds of what the nodes count.
spec fn counts_ok(nds: Seq<TripTrieNd>, adds: u64) -> bool {
    forall|i: int|
        #![trigger nds[i]]
        0 <= i < nds.len() ==> nds[i].trips <= adds && -(nds[i].trips as int) * 0x1_0000_0000
            <= nds[i].acc_time <= (nds[i].trips as int) * 0x1_0000_0000 && -0x1_0000_0000
            <= nds[i].time <= 0x1_0000_0000
}

/// Whether trips end at nodes of the tree only.
spec fn ends_ok(nds: Seq<TripTrieNd>, ends: Map<usize, Seq<Seq<char>>>) -> bool {
    forall|n: usize| #[trigger] ends.contains_key(n) ==> n < nds.len()
}

/// Whether a node is the root of a tree without trips.
pub open spec fn is_blank_root(nd: TripTrieNd) -> bool {
    &&& nd.stop_name@ == "ROOT"@
    &&& nd.platform@ == Seq::<char>::empty()
    &&& nd.pos == (Point { x: 0, y: 0 })
    &&& nd.place == 0
    &&& nd.time == 0
    &&& !nd.arr
    &&& nd.trip_time == 0
    &&& nd.trips == 0
    &&& nd.parent is None
    &&& nd.childs@ == Seq::<usize>::empty()
    &&& nd.r_attrs@ == (Seq::<char>::empty(), Seq::<char>::empty(), Seq::<char>::empty())
    &&& nd.acc_time == 0
}

impl TripTrie {
    /// Whether the nodes form a tree and the tables agree with it.
    pub closed spec fn wf(&self) -> bool {
        &&& is_tree(self.nds@)
        &&& counts_ok(self.nds@, self.adds)
        &&& ends_ok(self.nds@, trips_in(self.nd_trips))
    }

    /// The nodes, the root first.
    pub closed spec fn spec_nds(&self) -> Seq<TripTrieNd> {
        self.nds@
    }

    /// The nodes at which trips end, with the names of the trips.
    pub closed spec fn ends(&self) -> Map<usize, Seq<Seq<char>>> {
        trips_in(self.nd_trips)
    }

    /// The node at which each trip ends.
    pub closed spec fn trip_nodes(&self) -> Map<Seq<char>, usize> {
        names_of(self.trip_nds)
    }

    /// How many trips have been added.
    pub closed spec fn added(&self) -> u64 {
        self.adds
    }

    /// Whether the tree has a root only.
    pub open spec fn is_new(&self) -> bool {
        &&& self.spec_nds().len() == 1
        &&& is_blank_root(self.spec_nds()[0])
        &&& self.ends() == Map::<usize, Seq<Seq<char>>>::empty()
        &&& self.trip_nodes() == Map::<Seq<char>, usize>::empty()
        &&& self.added() == 0
    }

    /// A tree that has a root only.
    pub fn new() -> (r: Self)
        ensures
            r.wf(),
            r.is_new(),
    {
        let root = TripTrieNd {
            stop_name: "ROOT".to_owned(),
            platform: String::new(),
            pos: Point { x: 0, y: 0 },
            place: 0,
            time: 0,
            arr: false,
            trip_time: 0,
            trips: 0,
            parent: None,
            childs: Vec::new(),
            r_attrs: RoutingAttrs::default(),
            acc_time: 0,
        };
        let mut nds: Vec<TripTrieNd> = Vec::new();
        nds.push(root);
        let r = TripTrie {
            nds,
            nd_trips: trips_new(),
            trip_nds: names_new(),
            adds: 0,
        };
        proof {
            reveal(is_tree);
        }
        r
    }

    /// The nodes, the root first.
    pub fn get_nds(&self) -> (r: &Vec<TripTrieNd>)
        ensures
            r@ == self.spec_nds(),
    {
        &self.nds
    }

    /// The node at this position.
    pub fn get_nd(&self, index: usize) -> (r: &TripTrieNd)
        requires
            index < self.spec_nds().len(),
        ensures
            *r == self.spec_nds()[index as int],
    {
        &self.nds[index]
    }

    /// The nodes at which trips end, with the trips.
    pub fn get_nd_trips(&self) -> (r: &TripLists)
        ensures
            trips_in(*r) == self.ends(),
    {
        &self.nd_trips
    }

    /// The first child that stands for an arrival or departure at the stop.
    fn get_match_child(
        &self,
        parent: usize,
        stop: &TrieStop,
        time: i64,
        time_ex: bool,
    ) -> (r: Option<usize>)
        requires
            is_tree(self.nds@),
            parent < self.nds@.len(),
        ensures
            r == first_match(self.nds@, self.nds@[parent as int].childs@, *stop, time, time_ex),
            r matches Some(c) ==> parent < c < self.nds@.len(),
    {
        let childs = &self.nds[parent].childs;
        let mut i: usize = 0;
        while i < childs.len()
            invariant
                is_tree(self.nds@),
                parent < self.nds@.len(),
                *childs == self.nds@[parent as int].childs,
                i <= childs@.len(),
                first_match(self.nds@, childs@.take(i as int), *stop, time, time_ex) is None,
            decreases childs@.len() - i,
        {
            let c: usize = childs[i];
            proof {
                lemma_child(self.nds@, parent as int, i as int);
            }
            assert(childs@.take(i + 1).drop_last() =~= childs@.take(i as int));
            let nd = &self.nds[c];
            let near = nd.place < stop.distances_nm.len() && stop.distances_nm[nd.place]
                < 1_000_000_000;
            if str_eq(nd.stop_name.as_str(), stop.name.as_str()) && str_eq(
                nd.platform.as_str(),
                stop.platform.as_str(),
            ) && near && (!time_ex || nd.time == time) {
                proof {
                    lemma_first_match_prefix(
                        self.nds@,
                        childs@,
                        i + 1,
                        *stop,
                        time,
                        time_ex,
                    );
                }
                return Some(c);
            }
            i = i + 1;
        }
        assert(childs@.take(i as int) =~= childs@);
        None
    }

    /// The node at which a trip ends, if the tree has it.
    pub fn get(&self, trip: &TrieTrip, time_ex: bool) -> (r: Option<usize>)
        requires
            self.wf(),
            trip_ok(*trip),
        ensures
            r == find(self.spec_nds(), *trip, time_ex),
            r matches Some(n) ==> n < self.spec_nds().len(),
    {
        if trip.stop_times.len() == 0 {
            return None;
        }
        let steps = trip_steps(trip);
        let mut cur: usize = 0;
        let mut k: usize = 0;
        proof {
            lemma_root(self.nds@);
        }
        while k < steps.len()
            invariant
                self.wf(),
                trip_ok(*trip),
                steps@ == steps_of(*trip),
                forall|j: int|
                    0 <= j < steps@.len() ==> (#[trigger] steps@[j]).stop < trip.stop_times@.len(),
                k <= steps@.len(),
                cur < self.nds@.len(),
                descend(self.nds@, trip.stop_times@, steps@, time_ex, k as int) == Some(cur),
            decreases steps@.len() - k,
        {
            let stop = &trip.stop_times[steps[k].stop];
            match self.get_match_child(cur, stop, steps[k].time, time_ex) {
                Some(c) => {
                    cur = c;
                },
                None => {
                    proof {
                        lemma_descend_none(
                            self.nds@,
                            trip.stop_times@,
                            steps@,
                            time_ex,
                            k + 1,
                            steps@.len() as int,
                        );
                    }
                    return None;
                },
            }
            k = k + 1;
        }
        Some(cur)
    }
}

/// Whether the distances of a trip's stops are distances: each stop is where it is.
pub open spec fn trip_ok(trip: TrieTrip) -> bool {
    forall|i: int|
        #![trigger trip.stop_times@[i]]
        0 <= i < trip.stop_times@.len() ==> within_metre(
            trip.stop_times@[i].place,
            trip.stop_times@[i],
        )
}

proof fn lemma_first_match_prefix(
    nds: Seq<TripTrieNd>,
    childs: Seq<usize>,
    i: int,
    stop: TrieStop,
    time: i64,
    time_ex: bool,
)
    requires
        0 <= i <= childs.len(),
        first_match(nds, childs.take(i), stop, time, time_ex) is Some,
    ensures
        first_match(nds, childs, stop, time, time_ex) == first_match(
            nds,
            childs.take(i),
            stop,
            time,
            time_ex,
        ),
    decreases childs.len(),
{
    if i < childs.len() {
        let p = childs.drop_last();
        assert(p.take(i) =~= childs.take(i));
        lemma_first_match_prefix(nds, p, i, stop, time, time_ex);
    } else {
        assert(childs.take(i) =~= childs);
    }
}

proof fn lemma_descend_none(
    nds: Seq<TripTrieNd>,
    stops: Seq<TrieStop>,
    steps: Seq<TrieStep>,
    time_ex: bool,
    k: int,
    n: int,
)
    requires
        0 < k <= n,
        descend(nds, stops, steps, time_ex, k) is None,
    ensures
        descend(nds, stops, steps, time_ex, n) is None,
    decreases n - k,
{
    if k < n {
        lemma_descend_none(nds, stops, steps, time_ex, k + 1, n);
    }
}

fn time_after(t: Option<u32>, start: u32) -> (r: i64)
    ensures
        r == rel_time(t, start),
        -0x1_0000_0000 <= r <= 0x1_0000_0000,
{
    match t {
        Some(x) => x as i64 - start as i64,
        None => 0,
    }
}

/// The arrivals and departures of a trip.
fn trip_steps(trip: &TrieTrip) -> (r: Vec<TrieStep>)
    requires
        trip.stop_times@.len() > 0,
    ensures
        r@ == steps_of(*trip),
        forall|j: int|
            0 <= j < r@.len() ==> (#[trigger] r@[j]).stop < trip.stop_times@.len()
                && -0x1_0000_0000 <= r@[j].time <= 0x1_0000_0000,
        steps_alternate(r@),
{
    let stops = &trip.stop_times;
    let start: u32 = match stops[0].departure {
        Some(t) => t,
        None => 0,
    };
    let mut r: Vec<TrieStep> = Vec::new();
    let mut i: usize = 0;
    let n: usize = stops.len();
    while i < n
        invariant
            *stops == trip.stop_times,
            n == stops@.len(),
            n > 0,
            start == start_secs(stops@),
            i <= n,
            r@ == steps_upto(stops@, i as int),
            forall|j: int|
                0 <= j < r@.len() ==> (#[trigger] r@[j]).stop < n && -0x1_0000_0000 <= r@[j].time
                    <= 0x1_0000_0000,
            steps_alternate(r@),
            i < n ==> (r@.len() % 2 == 0) == (i == 0),
        decreases n - i,
    {
        if i > 0 {
            r.push(TrieStep { stop: i, arr: true, time: time_after(stops[i].arrival, start) });
        }
        if i < n - 1 {
            r.push(TrieStep { stop: i, arr: false, time: time_after(stops[i].departure, start) });
        }
        i = i + 1;
    }
    r
}

/// Departures and arrivals take turns, a departure first.
pub open spec fn steps_alternate(steps: Seq<TrieStep>) -> bool {
    forall|j: int| 0 <= j < steps.len() ==> (#[trigger] steps[j]).arr == (j % 2 == 1)
}

/// Whether a node has kept what it is matched by.
spec fn same_key(a: TripTrieNd, b: TripTrieNd) -> bool {
    &&& a.stop_name@ == b.stop_name@
    &&& a.platform@ == b.platform@
    &&& a.pos == b.pos
    &&& a.place == b.place
    &&& a.time == b.time
    &&& a.arr == b.arr
    &&& a.trip_time == b.trip_time
    &&& a.parent == b.parent
}

/// Whether a node has kept everything but, perhaps, got another child.
pub open spec fn kept(a: TripTrieNd, b: TripTrieNd) -> bool {
    &&& a.stop_name@ == b.stop_name@
    &&& a.platform@ == b.platform@
    &&& a.pos == b.pos
    &&& a.place == b.place
    &&& a.time == b.time
    &&& a.arr == b.arr
    &&& a.trip_time == b.trip_time
    &&& a.parent == b.parent
    &&& a.trips == b.trips
    &&& a.acc_time == b.acc_time
    &&& a.r_attrs@ == b.r_attrs@
    &&& b.childs@.len() >= a.childs@.len()
    &&& b.childs@.take(a.childs@.len() as int) == a.childs@
}

/// Whether a node has counted one more trip.
pub open spec fn counted(
    a: TripTrieNd,
    b: TripTrieNd,
    time: i64,
    attrs: (Seq<char>, Seq<char>, Seq<char>),
) -> bool {
    &&& a.stop_name@ == b.stop_name@
    &&& a.platform@ == b.platform@
    &&& a.pos == b.pos
    &&& a.place == b.place
    &&& a.time == b.time
    &&& a.arr == b.arr
    &&& a.trip_time == b.trip_time
    &&& a.parent == b.parent
    &&& b.trips == a.trips + 1
    &&& b.acc_time == a.acc_time + time
    &&& b.r_attrs@ == (
        first_name(a.r_attrs@.0, attrs.0),
        first_name(a.r_attrs@.1, attrs.1),
        first_name(a.r_attrs@.2, attrs.2),
    )
    &&& b.childs@.len() >= a.childs@.len()
    &&& b.childs@.take(a.childs@.len() as int) == a.childs@
}

/// Whether a node has been made for a step of a trip.
pub open spec fn made_for(
    b: TripTrieNd,
    stop: TrieStop,
    step: TrieStep,
    attrs: (Seq<char>, Seq<char>, Seq<char>),
) -> bool {
    &&& b.stop_name@ == stop.name@
    &&& b.platform@ == stop.platform@
    &&& b.pos == stop.pos
    &&& b.place == stop.place
    &&& b.time == step.time
    &&& b.trip_time == step.time
    &&& b.arr == step.arr
    &&& b.trips == 1
    &&& b.acc_time == step.time
    &&& b.r_attrs@ == attrs
}

/// What adding a trip makes of the nodes: those on its way count one more trip, those that were
/// missing are made, and the others are kept.
pub open spec fn grown(
    before: Seq<TripTrieNd>,
    after: Seq<TripTrieNd>,
    path: Seq<usize>,
    stops: Seq<TrieStop>,
    steps: Seq<TrieStep>,
    attrs: (Seq<char>, Seq<char>, Seq<char>),
) -> bool {
    &&& before.len() <= after.len()
    &&& forall|j: int|
        #![trigger path[j]]
        0 <= j < path.len() ==> path[j] < after.len() && (if path[j] < before.len() {
            counted(before[path[j] as int], after[path[j] as int], steps[j].time, attrs)
        } else {
            made_for(after[path[j] as int], stops[steps[j].stop as int], steps[j], attrs)
        })
    &&& forall|i: int|
        #![trigger after[i]]
        0 <= i < before.len() && !path.contains(i as usize) ==> kept(before[i], after[i])
    &&& forall|i: usize| before.len() <= i < after.len() ==> #[trigger] path.contains(i)
}

proof fn lemma_first_match_same(
    a: Seq<TripTrieNd>,
    b: Seq<TripTrieNd>,
    childs: Seq<usize>,
    stop: TrieStop,
    time: i64,
    time_ex: bool,
)
    requires
        forall|k: int|
            0 <= k < childs.len() ==> same_key(
                a[(#[trigger] childs[k]) as int],
                b[childs[k] as int],
            ),
    ensures
        first_match(a, childs, stop, time, time_ex) == first_match(b, childs, stop, time, time_ex),
    decreases childs.len(),
{
    if childs.len() > 0 {
        let p = childs.drop_last();
        assert forall|k: int| 0 <= k < p.len() implies same_key(
            a[(#[trigger] p[k]) as int],
            b[p[k] as int],
        ) by {
            assert(childs[k] == p[k]);
        }
        lemma_first_match_same(a, b, p, stop, time, time_ex);
        assert(childs[childs.len() - 1] == childs.last());
    }
}

/// A match is one of the children, and matches.
pub(crate) proof fn lemma_first_match_child(
    nds: Seq<TripTrieNd>,
    childs: Seq<usize>,
    stop: TrieStop,
    time: i64,
    time_ex: bool,
)
    ensures
        first_match(nds, childs, stop, time, time_ex) matches Some(c) ==> childs.contains(c)
            && nd_matches(nds[c as int], stop, time, time_ex),
    decreases childs.len(),
{
    if childs.len() > 0 {
        lemma_first_match_child(nds, childs.drop_last(), stop, time, time_ex);
        if let Some(c) = first_match(nds, childs.drop_last(), stop, time, time_ex) {
            let k = choose|k: int|
                0 <= k < childs.drop_last().len() && childs.drop_last()[k] == c;
            assert(childs[k] == c);
        } else {
            assert(childs[childs.len() - 1] == childs.last());
        }
    }
}

/// A way down stays as it is while nodes further down change.
proof fn lemma_descend_same(
    a: Seq<TripTrieNd>,
    b: Seq<TripTrieNd>,
    stops: Seq<TrieStop>,
    steps: Seq<TrieStep>,
    time_ex: bool,
    path: Seq<usize>,
    cur: usize,
    k: int,
)
    requires
        0 <= k <= path.len(),
        is_tree(a),
        a.len() <= b.len(),
        cur < a.len(),
        forall|i: int| #![trigger b[i]] 0 <= i < a.len() ==> same_key(a[i], b[i]),
        forall|i: int|
            #![trigger b[i]]
            0 <= i < a.len() && i != cur ==> a[i].childs@ == b[i].childs@,
        forall|j: int|
            0 <= j < path.len() ==> descend(a, stops, steps, time_ex, j + 1) == Some(
                #[trigger] path[j],
            ) && path[j] < a.len(),
        forall|j: int| 0 <= j < path.len() - 1 ==> #[trigger] path[j] != cur,
        path.len() > 0 ==> cur != 0,
        path.len() > 0 ==> path.last() == cur,
    ensures
        descend(b, stops, steps, time_ex, k) == descend(a, stops, steps, time_ex, k),
    decreases k,
{
    if k > 0 {
        lemma_descend_same(a, b, stops, steps, time_ex, path, cur, k - 1);
        let n: usize = if k == 1 {
            0
        } else {
            path[k - 2]
        };
        assert(descend(a, stops, steps, time_ex, k - 1) == Some(n)) by {
            if k > 1 {
                assert(descend(a, stops, steps, time_ex, (k - 2) + 1) == Some(path[k - 2]));
            }
        }
        assert(n != cur);
        let childs = a[n as int].childs@;
        assert(b[n as int].childs@ == childs);
        assert forall|m: int| 0 <= m < childs.len() implies same_key(
            a[(#[trigger] childs[m]) as int],
            b[childs[m] as int],
        ) by {
            lemma_child(a, n as int, m);
            assert(b[childs[m] as int] == b[childs[m] as int]);
        }
        lemma_first_match_same(
            a,
            b,
            childs,
            stops[steps[k - 1].stop as int],
            steps[k - 1].time,
            time_ex,
        );
    }
}

/// Another leaf leaves a tree a tree.
proof fn lemma_tree_insert(a: Seq<TripTrieNd>, b: Seq<TripTrieNd>, parent: usize)
    requires
        is_tree(a),
        parent < a.len(),
        a.len() < usize::MAX,
        b.len() == a.len() + 1,
        forall|i: int|
            #![trigger b[i]]
            0 <= i < a.len() ==> b[i].parent == a[i].parent && b[i].arr == a[i].arr && b[i].childs@
                == (if i == parent {
                a[i].childs@.push(a.len() as usize)
            } else {
                a[i].childs@
            }),
        b[a.len() as int].parent == Some(parent),
        b[a.len() as int].arr == (parent != 0 && !a[parent as int].arr),
        b[a.len() as int].childs@.len() == 0,
    ensures
        is_tree(b),
{
    reveal(is_tree);
    let new = a.len() as usize;
    assert forall|i: int| #![trigger b[i]] 0 < i < b.len() implies {
        &&& b[i].parent is Some
        &&& b[i].parent->0 < i
        &&& b[b[i].parent->0 as int].childs@.contains(i as usize)
        &&& b[i].arr == (b[i].parent->0 != 0 && !b[b[i].parent->0 as int].arr)
    } by {
        if i < a.len() {
            let p = a[i].parent->0;
            let k = choose|k: int|
                0 <= k < a[p as int].childs@.len() && a[p as int].childs@[k] == i as usize;
            assert(b[p as int].childs@[k] == i as usize);
        } else {
            let k = a[parent as int].childs@.len() as int;
            assert(b[parent as int].childs@[k] == new);
        }
    }
    assert forall|n: int, k: int|
        #![trigger b[n].childs@[k]]
        0 <= n < b.len() && 0 <= k < b[n].childs@.len() implies {
        let c = b[n].childs@[k];
        n < c < b.len() && b[c as int].parent == Some(n as usize)
    } by {
        if n < a.len() {
            if k < a[n].childs@.len() {
                assert(a[n].childs@[k] == b[n].childs@[k]);
                assert(b[a[n].childs@[k] as int].parent == a[a[n].childs@[k] as int].parent);
            }
        }
    }
    assert forall|n: int| #![trigger b[n]] 0 <= n < b.len() implies b[n].childs@.no_duplicates() by {
        if n < a.len() {
            assert(a[n].childs@.no_duplicates());
            if n == parent {
                assert forall|k: int| 0 <= k < a[n].childs@.len() implies #[trigger] a[n].childs@[k]
                    < new by {}
            }
        }
    }
    assert(b[0].parent is None && !b[0].arr);
}

/// A change that leaves parents, children and directions alone leaves a tree a tree.
proof fn lemma_tree_same(a: Seq<TripTrieNd>, b: Seq<TripTrieNd>)
    requires
        is_tree(a),
        b.len() == a.len(),
        forall|i: int|
            #![trigger b[i]]
            0 <= i < a.len() ==> b[i].parent == a[i].parent && b[i].arr == a[i].arr && b[i].childs@
                == a[i].childs@,
    ensures
        is_tree(b),
{
    reveal(is_tree);
    assert forall|i: int| #![trigger b[i]] 0 < i < b.len() implies {
        &&& b[i].parent is Some
        &&& b[i].parent->0 < i
        &&& b[b[i].parent->0 as int].childs@.contains(i as usize)
        &&& b[i].arr == (b[i].parent->0 != 0 && !b[b[i].parent->0 as int].arr)
    } by {
        let p = a[i].parent->0;
        assert(b[p as int].childs@ == a[p as int].childs@);
    }
    assert forall|n: int, k: int|
        #![trigger b[n].childs@[k]]
        0 <= n < b.len() && 0 <= k < b[n].childs@.len() implies {
        let c = b[n].childs@[k];
        n < c < b.len() && b[c as int].parent == Some(n as usize)
    } by {
        assert(a[n].childs@[k] == b[n].childs@[k]);
    }
    assert(b[0].parent is None && !b[0].arr);
}

/// What is true of the nodes while a trip is being added.
spec fn adding(
    before: Seq<TripTrieNd>,
    nds: Seq<TripTrieNd>,
    adds: u64,
    stops: Seq<TrieStop>,
    steps: Seq<TrieStep>,
    time_ex: bool,
    attrs: (Seq<char>, Seq<char>, Seq<char>),
    path: Seq<usize>,
    cur: usize,
) -> bool {
    &&& is_tree(nds)
    &&& counts_ok(nds, adds)
    &&& grown(before, nds, path, stops, steps, attrs)
    &&& cur < nds.len()
    &&& path.len() <= steps.len()
    &&& cur == (if path.len() == 0 {
        0
    } else {
        path.last()
    })
    &&& path.len() > 0 ==> cur > 0
    &&& forall|j: int| 0 <= j < path.len() ==> descend(nds, stops, steps, time_ex, j + 1) == Some(
        #[trigger] path[j],
    )
    &&& forall|i: int, j: int| 0 <= i < j < path.len() ==> path[i] < path[j]
    &&& nds[cur as int].arr == (path.len() > 0 && path.len() % 2 == 0)
    // Nodes further down have not been touched.
    &&& forall|i: int| #![trigger nds[i]] cur < i < before.len() ==> nds[i] == before[i]
    &&& nds.len() > before.len() ==> cur == nds.len() - 1
}

proof fn lemma_take_take(x: Seq<usize>, y: Seq<usize>, z: Seq<usize>)
    requires
        x.len() <= y.len() <= z.len(),
        y.take(x.len() as int) == x,
        z.take(y.len() as int) == y,
    ensures
        z.take(x.len() as int) == x,
{
    assert(z.take(x.len() as int) =~= y.take(x.len() as int));
}

proof fn lemma_grown_count(
    before: Seq<TripTrieNd>,
    a: Seq<TripTrieNd>,
    b: Seq<TripTrieNd>,
    stops: Seq<TrieStop>,
    steps: Seq<TrieStep>,
    attrs: (Seq<char>, Seq<char>, Seq<char>),
    path: Seq<usize>,
    c: usize,
)
    requires
        grown(before, a, path, stops, steps, attrs),
        a.len() == before.len(),
        c < a.len(),
        !path.contains(c),
        a[c as int] == before[c as int],
        b.len() == a.len(),
        forall|i: int| #![trigger b[i]] 0 <= i < a.len() && i != c ==> b[i] == a[i],
        counted(a[c as int], b[c as int], steps[path.len() as int].time, attrs),
    ensures
        grown(before, b, path.push(c), stops, steps, attrs),
{
    let k = path.len() as int;
    let path2 = path.push(c);
    assert forall|j: int| #![trigger path2[j]] 0 <= j < path2.len() implies path2[j] < b.len() && (
    if path2[j] < before.len() {
        counted(before[path2[j] as int], b[path2[j] as int], steps[j].time, attrs)
    } else {
        made_for(b[path2[j] as int], stops[steps[j].stop as int], steps[j], attrs)
    }) by {
        if j < k {
            assert(path2[j] == path[j]);
            assert(path.contains(path[j]));
            assert(b[path[j] as int] == a[path[j] as int]);
        }
    }
    assert forall|i: int| #![trigger b[i]] 0 <= i < before.len() && !path2.contains(i as usize) implies kept(
    before[i], b[i]) by {
        assert(path2[k] == c);
        assert(i != c);
        assert(!path.contains(i as usize)) by {
            if path.contains(i as usize) {
                let x = choose|x: int| 0 <= x < path.len() && path[x] == i as usize;
                assert(path2[x] == i as usize);
            }
        }
        assert(kept(before[i], a[i]));
    }
}

proof fn lemma_grown_make(
    before: Seq<TripTrieNd>,
    a: Seq<TripTrieNd>,
    b: Seq<TripTrieNd>,
    stops: Seq<TrieStop>,
    steps: Seq<TrieStep>,
    attrs: (Seq<char>, Seq<char>, Seq<char>),
    path: Seq<usize>,
    cur: usize,
)
    requires
        grown(before, a, path, stops, steps, attrs),
        a.len() < usize::MAX,
        cur < a.len(),
        b.len() == a.len() + 1,
        forall|i: int| #![trigger b[i]] 0 <= i < a.len() && i != cur ==> b[i] == a[i],
        kept(a[cur as int], b[cur as int]),
        made_for(
            b[a.len() as int],
            stops[steps[path.len() as int].stop as int],
            steps[path.len() as int],
            attrs,
        ),
    ensures
        grown(before, b, path.push(a.len() as usize), stops, steps, attrs),
{
    let k = path.len() as int;
    let c = a.len() as usize;
    let path2 = path.push(c);
    assert forall|j: int| #![trigger path2[j]] 0 <= j < path2.len() implies path2[j] < b.len() && (
    if path2[j] < before.len() {
        counted(before[path2[j] as int], b[path2[j] as int], steps[j].time, attrs)
    } else {
        made_for(b[path2[j] as int], stops[steps[j].stop as int], steps[j], attrs)
    }) by {
        if j < k {
            assert(path2[j] == path[j]);
            if path[j] == cur && path[j] < before.len() {
                lemma_take_take(
                    before[cur as int].childs@,
                    a[cur as int].childs@,
                    b[cur as int].childs@,
                );
            }
        }
    }
    assert forall|i: int| #![trigger b[i]] 0 <= i < before.len() && !path2.contains(i as usize) implies kept(
    before[i], b[i]) by {
        assert(!path.contains(i as usize)) by {
            if path.contains(i as usize) {
                let x = choose|x: int| 0 <= x < path.len() && path[x] == i as usize;
                assert(path2[x] == i as usize);
            }
        }
        assert(kept(before[i], a[i]));
        if i == cur {
            lemma_take_take(before[i].childs@, a[i].childs@, b[i].childs@);
        }
    }
    assert forall|i: usize| before.len() <= i < b.len() implies #[trigger] path2.contains(i) by {
        if i < a.len() {
            assert(path.contains(i));
            let x = choose|x: int| 0 <= x < path.len() && path[x] == i;
            assert(path2[x] == i);
        } else {
            assert(path2[k] == c);
        }
    }
}

/// Counting a trip at a node that matches.
proof fn lemma_adding_match(
    before: Seq<TripTrieNd>,
    a: Seq<TripTrieNd>,
    b: Seq<TripTrieNd>,
    adds: u64,
    stops: Seq<TrieStop>,
    steps: Seq<TrieStep>,
    time_ex: bool,
    attrs: (Seq<char>, Seq<char>, Seq<char>),
    path: Seq<usize>,
    cur: usize,
    c: usize,
)
    requires
        adding(before, a, adds, stops, steps, time_ex, attrs, path, cur),
        counts_ok(before, (adds - 1) as u64),
        adds > 0,
        path.len() < steps.len(),
        steps_alternate(steps),
        -0x1_0000_0000 <= steps[path.len() as int].time <= 0x1_0000_0000,
        first_match(
            a,
            a[cur as int].childs@,
            stops[steps[path.len() as int].stop as int],
            steps[path.len() as int].time,
            time_ex,
        ) == Some(c),
        c < a.len(),
        b.len() == a.len(),
        forall|i: int| #![trigger b[i]] 0 <= i < a.len() && i != c ==> b[i] == a[i],
        counted(a[c as int], b[c as int], steps[path.len() as int].time, attrs),
        b[c as int].childs@ == a[c as int].childs@,
    ensures
        adding(before, b, adds, stops, steps, time_ex, attrs, path.push(c), c),
{
    let k = path.len() as int;
    let path2 = path.push(c);
    let childs = a[cur as int].childs@;
    lemma_first_match_child(a, childs, stops[steps[k].stop as int], steps[k].time, time_ex);
    let m = choose|m: int| 0 <= m < childs.len() && childs[m] == c;
    lemma_child(a, cur as int, m);
    assert(a.len() == before.len());
    assert(a[c as int] == before[c as int]);
    lemma_tree_same(a, b);
    assert forall|i: int| #![trigger b[i]] 0 <= i < b.len() implies b[i].trips <= adds && -(
    b[i].trips as int) * 0x1_0000_0000 <= b[i].acc_time <= (b[i].trips as int) * 0x1_0000_0000 by {
        if i == c {
            assert(before[i].trips <= adds - 1);
        } else {
            assert(a[i].trips <= adds);
        }
    }
    // The way down so far is the same.
    let far = if path.len() == 0 {
        c
    } else {
        cur
    };
    assert forall|i: int| #![trigger b[i]] 0 <= i < a.len() implies same_key(a[i], b[i])
        && a[i].childs@ == b[i].childs@ by {}
    assert forall|j: int| 0 <= j <= k implies #[trigger] descend(b, stops, steps, time_ex, j)
        == descend(a, stops, steps, time_ex, j) by {
        lemma_descend_same_all(a, b, stops, steps, time_ex, j);
    }
    assert(descend(a, stops, steps, time_ex, k) == Some(cur)) by {
        if k > 0 {
            assert(descend(a, stops, steps, time_ex, (k - 1) + 1) == Some(path[k - 1]));
        }
    }
    assert(descend(b, stops, steps, time_ex, k + 1) == Some(c)) by {
        assert(descend(b, stops, steps, time_ex, k) == Some(cur));
        assert forall|x: int| 0 <= x < childs.len() implies same_key(
            a[(#[trigger] childs[x]) as int],
            b[childs[x] as int],
        ) by {
            lemma_child(a, cur as int, x);
            assert(b[childs[x] as int] == b[childs[x] as int]);
        }
        lemma_first_match_same(
            a,
            b,
            childs,
            stops[steps[k].stop as int],
            steps[k].time,
            time_ex,
        );
        assert(b[cur as int] == a[cur as int]);
    }
    assert forall|j: int| 0 <= j < path2.len() implies descend(b, stops, steps, time_ex, j + 1)
        == Some(#[trigger] path2[j]) by {
        if j < k {
            assert(path2[j] == path[j]);
            assert(descend(b, stops, steps, time_ex, j + 1) == descend(
                a,
                stops,
                steps,
                time_ex,
                j + 1,
            ));
        }
    }
    assert forall|x: int, y: int| 0 <= x < y < path2.len() implies path2[x] < path2[y] by {
        if y == k {
            assert(path[x] <= cur) by {
                if x < k - 1 {
                    assert(path[x] < path[k - 1]);
                }
            }
        }
    }
    assert(!path.contains(c)) by {
        if path.contains(c) {
            let x = choose|x: int| 0 <= x < path.len() && path[x] == c;
            assert(path2[x] < path2[k]);
        }
    }
    lemma_grown_count(before, a, b, stops, steps, attrs, path, c);
}

/// A way down stays as it is while nodes only count.
proof fn lemma_descend_same_all(
    a: Seq<TripTrieNd>,
    b: Seq<TripTrieNd>,
    stops: Seq<TrieStop>,
    steps: Seq<TrieStep>,
    time_ex: bool,
    k: int,
)
    requires
        is_tree(a),
        a.len() == b.len(),
        forall|i: int|
            #![trigger b[i]]
            0 <= i < a.len() ==> same_key(a[i], b[i]) && a[i].childs@ == b[i].childs@,
    ensures
        descend(b, stops, steps, time_ex, k) == descend(a, stops, steps, time_ex, k),
        descend(a, stops, steps, time_ex, k) matches Some(n) ==> n < a.len(),
    decreases k,
{
    lemma_root(a);
    if k > 0 {
        lemma_descend_same_all(a, b, stops, steps, time_ex, k - 1);
        if let Some(n) = descend(a, stops, steps, time_ex, k - 1) {
            let childs = a[n as int].childs@;
            assert(b[n as int].childs@ == childs);
            let stop = stops[steps[k - 1].stop as int];
            let time = steps[k - 1].time;
            assert forall|m: int| 0 <= m < childs.len() implies same_key(
                a[(#[trigger] childs[m]) as int],
                b[childs[m] as int],
            ) by {
                lemma_child(a, n as int, m);
                assert(b[childs[m] as int] == b[childs[m] as int]);
            }
            lemma_first_match_same(a, b, childs, stop, time, time_ex);
            lemma_first_match_child(a, childs, stop, time, time_ex);
            if let Some(c) = first_match(a, childs, stop, time, time_ex) {
                let m = choose|m: int| 0 <= m < childs.len() && childs[m] == c;
                lemma_child(a, n as int, m);
            }
        }
    }
}

/// Making a node where none matches.
#[verifier::rlimit(60)]
proof fn lemma_adding_insert(
    before: Seq<TripTrieNd>,
    a: Seq<TripTrieNd>,
    b: Seq<TripTrieNd>,
    adds: u64,
    stops: Seq<TrieStop>,
    steps: Seq<TrieStep>,
    time_ex: bool,
    attrs: (Seq<char>, Seq<char>, Seq<char>),
    path: Seq<usize>,
    cur: usize,
)
    requires
        adding(before, a, adds, stops, steps, time_ex, attrs, path, cur),
        adds > 0,
        a.len() < usize::MAX,
        path.len() < steps.len(),
        steps_alternate(steps),
        -0x1_0000_0000 <= steps[path.len() as int].time <= 0x1_0000_0000,
        first_match(
            a,
            a[cur as int].childs@,
            stops[steps[path.len() as int].stop as int],
            steps[path.len() as int].time,
            time_ex,
        ) is None,
        b.len() == a.len() + 1,
        forall|i: int| #![trigger b[i]] 0 <= i < a.len() && i != cur ==> b[i] == a[i],
        kept(a[cur as int], b[cur as int]),
        b[cur as int].childs@ == a[cur as int].childs@.push(a.len() as usize),
        made_for(
            b[a.len() as int],
            stops[steps[path.len() as int].stop as int],
            steps[path.len() as int],
            attrs,
        ),
        b[a.len() as int].parent == Some(cur),
        b[a.len() as int].childs@.len() == 0,
        within_metre(
            stops[steps[path.len() as int].stop as int].place,
            stops[steps[path.len() as int].stop as int],
        ),
    ensures
        adding(
            before,
            b,
            adds,
            stops,
            steps,
            time_ex,
            attrs,
            path.push(a.len() as usize),
            a.len() as usize,
        ),
{
    let k = path.len() as int;
    let c = a.len() as usize;
    let path2 = path.push(c);
    let childs = a[cur as int].childs@;
    let stop = stops[steps[k].stop as int];
    let time = steps[k].time;
    assert(steps[k].arr == (k % 2 == 1));
    assert(cur != 0 <==> path.len() > 0);
    lemma_tree_insert(a, b, cur);
    assert forall|i: int| #![trigger b[i]] 0 <= i < b.len() implies b[i].trips <= adds && -(
    b[i].trips as int) * 0x1_0000_0000 <= b[i].acc_time <= (b[i].trips as int) * 0x1_0000_0000 by {
        if i < a.len() {
            assert(a[i].trips <= adds);
        }
    }
    assert forall|i: int| #![trigger b[i]] 0 <= i < a.len() implies same_key(a[i], b[i]) by {}
    assert forall|j: int| 0 <= j < path.len() - 1 implies #[trigger] path[j] != cur by {
        assert(path[j] < path[k - 1]);
    }
    assert forall|j: int| 0 <= j <= k implies #[trigger] descend(b, stops, steps, time_ex, j)
        == descend(a, stops, steps, time_ex, j) by {
        lemma_descend_same(a, b, stops, steps, time_ex, path, cur, j);
    }
    assert(descend(a, stops, steps, time_ex, k) == Some(cur)) by {
        if k > 0 {
            assert(descend(a, stops, steps, time_ex, (k - 1) + 1) == Some(path[k - 1]));
        }
    }
    assert(descend(b, stops, steps, time_ex, k + 1) == Some(c)) by {
        assert(descend(b, stops, steps, time_ex, k) == Some(cur));
        let childs2 = b[cur as int].childs@;
        assert(childs2.drop_last() =~= childs);
        assert forall|x: int| 0 <= x < childs.len() implies same_key(
            a[(#[trigger] childs[x]) as int],
            b[childs[x] as int],
        ) by {
            lemma_child(a, cur as int, x);
            assert(b[childs[x] as int] == b[childs[x] as int]);
        }
        lemma_first_match_same(a, b, childs, stop, time, time_ex);
        assert(nd_matches(b[c as int], stop, time, time_ex));
    }
    assert forall|j: int| 0 <= j < path2.len() implies descend(b, stops, steps, time_ex, j + 1)
        == Some(#[trigger] path2[j]) by {
        if j < k {
            assert(path2[j] == path[j]);
            assert(descend(b, stops, steps, time_ex, j + 1) == descend(
                a,
                stops,
                steps,
                time_ex,
                j + 1,
            ));
        }
    }
    assert forall|x: int, y: int| 0 <= x < y < path2.len() implies path2[x] < path2[y] by {
        if y == k {
            assert(path[x] < a.len());
        }
    }
    lemma_grown_make(before, a, b, stops, steps, attrs, path, cur);
}

impl TripTrie {
    /// Adds a node below `parent`.
    fn insert(&mut self, stop: &TrieStop, r_attrs: &RoutingAttrs, time: i64, arr: bool, parent: usize) -> (idx:
        usize)
        requires
            parent < old(self).nds@.len(),
        ensures
            idx == old(self).nds@.len(),
            final(self).nds@.len() == idx + 1,
            forall|i: int|
                #![trigger final(self).nds@[i]]
                0 <= i < idx && i != parent ==> final(self).nds@[i] == old(self).nds@[i],
            kept(old(self).nds@[parent as int], final(self).nds@[parent as int]),
            final(self).nds@[parent as int].childs@ == old(self).nds@[parent as int].childs@.push(
                idx,
            ),
            made_for(
                final(self).nds@[idx as int],
                *stop,
                (TrieStep { stop: 0, arr, time }),
                r_attrs@,
            ),
            final(self).nds@[idx as int].parent == Some(parent),
            final(self).nds@[idx as int].childs@.len() == 0,
            final(self).nd_trips == old(self).nd_trips,
            final(self).trip_nds == old(self).trip_nds,
            final(self).adds == old(self).adds,
    {
        let idx: usize = self.nds.len();
        self.nds.push(
            TripTrieNd {
                stop_name: stop.name.clone(),
                platform: stop.platform.clone(),
                pos: stop.pos,
                place: stop.place,
                time,
                arr,
                trip_time: time,
                trips: 1,
                parent: Some(parent),
                childs: Vec::new(),
                r_attrs: r_attrs.clone(),
                acc_time: time as i128,
            },
        );
        self.nds[parent].childs.push(idx);
        proof {
            let a = old(self).nds@[parent as int].childs@;
            assert(self.nds@[parent as int].childs@.take(a.len() as int) =~= a);
        }
        idx
    }

    /// Lets a node count another trip.
    fn count_trip(&mut self, c: usize, r_attrs: &RoutingAttrs, time: i64)
        requires
            c < old(self).nds@.len(),
            old(self).nds@[c as int].trips < u64::MAX,
            -0x1_0000_0000_0000_0000_0000_0000_0000 <= old(self).nds@[c as int].acc_time
                <= 0x1_0000_0000_0000_0000_0000_0000_0000,
        ensures
            final(self).nds@.len() == old(self).nds@.len(),
            forall|i: int|
                #![trigger final(self).nds@[i]]
                0 <= i < old(self).nds@.len() && i != c ==> final(self).nds@[i] == old(
                    self,
                ).nds@[i],
            counted(old(self).nds@[c as int], final(self).nds@[c as int], time, r_attrs@),
            final(self).nds@[c as int].childs@ == old(self).nds@[c as int].childs@,
            final(self).nd_trips == old(self).nd_trips,
            final(self).trip_nds == old(self).trip_nds,
            final(self).adds == old(self).adds,
    {
        let acc: i128 = self.nds[c].acc_time + time as i128;
        let trips: u64 = self.nds[c].trips + 1;
        self.nds[c].acc_time = acc;
        self.nds[c].trips = trips;
        self.nds[c].r_attrs.merge(r_attrs);
        proof {
            let a = old(self).nds@[c as int].childs@;
            assert(a.take(a.len() as int) =~= a);
        }
    }

    /// Notes that a trip ends at a node.
    fn end_at(&mut self, n: usize, id: &String)
        requires
            n < old(self).nds@.len(),
            ends_ok(old(self).nds@, trips_in(old(self).nd_trips)),
        ensures
            final(self).nds == old(self).nds,
            final(self).adds == old(self).adds,
            ends_ok(final(self).nds@, trips_in(final(self).nd_trips)),
            final(self).trip_nodes() == old(self).trip_nodes().insert(id@, n),
            ends_with(old(self).ends(), final(self).ends(), n, id@),
    {
        names_insert(&mut self.trip_nds, id.clone(), n);
        trips_push(&mut self.nd_trips, n, id.clone());
    }
}

/// Whether the ends have got one more trip, which ends at `n`.
pub open spec fn ends_with(
    a: Map<usize, Seq<Seq<char>>>,
    b: Map<usize, Seq<Seq<char>>>,
    n: usize,
    id: Seq<char>,
) -> bool {
    b == a.insert(
        n,
        (if a.contains_key(n) {
            a[n]
        } else {
            Seq::empty()
        }).push(id),
    )
}

impl TripTrie {
    /// Whether a trip can be added: it has stops, and, if the tree has trips already, begins where
    /// they begin.
    pub open spec fn accepts(&self, trip: TrieTrip, time_ex: bool) -> bool {
        &&& trip.stop_times@.len() > 0
        &&& self.trip_nodes() == Map::<Seq<char>, usize>::empty() || steps_of(trip).len() == 0 || descend(
            self.spec_nds(),
            trip.stop_times@,
            steps_of(trip),
            time_ex,
            1,
        ) is Some
    }

    /// Adds a trip, and says whether it could be added.
    fn add(&mut self, trip: &TrieTrip, r_attrs: &RoutingAttrs, time_ex: bool) -> (r: bool)
        requires
            old(self).wf(),
            trip_ok(*trip),
            old(self).added() < u64::MAX,
        ensures
            final(self).wf(),
            r == old(self).accepts(*trip, time_ex),
            !r ==> *final(self) == *old(self),
            r ==> trip_added(*old(self), *final(self), *trip, r_attrs@, time_ex),
    {
        if trip.stop_times.len() == 0 {
            return false;
        }
        let steps = trip_steps(trip);
        let ghost stops = trip.stop_times@;
        let ghost before = self.nds@;
        let ghost mut path = Seq::<usize>::empty();
        let n: usize = steps.len();
        let mut cur: usize = 0;
        proof {
            lemma_root(self.nds@);
        }
        if n > 0 && !names_is_empty(&self.trip_nds) {
            let stop = &trip.stop_times[steps[0].stop];
            let first = self.get_match_child(0, stop, steps[0].time, time_ex);
            proof {
                reveal_with_fuel(descend, 2);
            }
            if first.is_none() {
                return false;
            }
        }
        let adds: u64 = self.adds + 1;
        let mut k: usize = 0;
        proof {
            assert forall|i: int| #![trigger before[i]] 0 <= i < before.len() implies kept(
                before[i],
                before[i],
            ) by {
                let x = before[i].childs@;
                assert(x.take(x.len() as int) =~= x);
            }
            assert(adding(
                before,
                self.nds@,
                adds,
                stops,
                steps@,
                time_ex,
                r_attrs@,
                path,
                cur,
            ));
        }
        while k < n
            invariant
                n == steps@.len(),
                k <= n,
                k == path.len(),
                stops == trip.stop_times@,
                trip_ok(*trip),
                steps@ == steps_of(*trip),
                steps_alternate(steps@),
                forall|j: int|
                    0 <= j < steps@.len() ==> (#[trigger] steps@[j]).stop < stops.len()
                        && -0x1_0000_0000 <= steps@[j].time <= 0x1_0000_0000,
                adds > 0,
                counts_ok(before, (adds - 1) as u64),
                self.nd_trips == old(self).nd_trips,
                self.trip_nds == old(self).trip_nds,
                self.adds == old(self).adds,
                adding(before, self.nds@, adds, stops, steps@, time_ex, r_attrs@, path, cur),
            decreases n - k,
        {
            let stop = &trip.stop_times[steps[k].stop];
            let time: i64 = steps[k].time;
            let ghost a = self.nds@;
            match self.get_match_child(cur, stop, time, time_ex) {
                Some(c) => {
                    proof {
                        assert(a.len() == before.len());
                        assert(a[c as int] == before[c as int]);
                        assert(a[c as int].trips <= adds - 1);
                        lemma_acc_bound(a[c as int].trips, a[c as int].acc_time);
                    }
                    self.count_trip(c, r_attrs, time);
                    proof {
                        lemma_adding_match(
                            before, a, self.nds@, adds, stops, steps@, time_ex, r_attrs@, path, cur,
                            c,
                        );
                        path = path.push(c);
                    }
                    cur = c;
                },
                None => {
                    let arr = steps[k].arr;
                    let c: usize = self.insert(stop, r_attrs, time, arr, cur);
                    proof {
                        assert(self.nds.len() == self.nds@.len());
                        assert(trip.stop_times@[steps@[k as int].stop as int] == *stop);
                        lemma_adding_insert(
                            before, a, self.nds@, adds, stops, steps@, time_ex, r_attrs@, path, cur,
                        );
                        path = path.push(c);
                    }
                    cur = c;
                },
            }
            k = k + 1;
        }
        self.adds = adds;
        proof {
            assert(descend(self.nds@, stops, steps@, time_ex, n as int) == Some(cur)) by {
                if n > 0 {
                    assert(descend(self.nds@, stops, steps@, time_ex, (n - 1) + 1) == Some(
                        path[n - 1],
                    ));
                }
            }
        }
        let ghost mid = *self;
        self.end_at(cur, &trip.id);
        proof {
            assert(mid.ends() == old(self).ends());
            assert(grown(before, self.nds@, path, stops, steps@, r_attrs@));
            assert(is_way(self.nds@, *trip, time_ex, path));
            assert(grown_by(before, self.nds@, *trip, r_attrs@, time_ex));
        }
        true
    }

    /// Adds a trip, and says whether it could be added. If `degen` is set, a trip is added only if
    /// the tree has its way already and no other trip goes on from there.
    pub fn add_trip(&mut self, trip: &TrieTrip, r_attrs: &RoutingAttrs, time_ex: bool, degen: bool) -> (r:
        bool)
        requires
            old(self).wf(),
            trip_ok(*trip),
            old(self).added() < u64::MAX,
        ensures
            final(self).wf(),
            !degen ==> r == old(self).accepts(*trip, time_ex),
            degen ==> r == (find(old(self).spec_nds(), *trip, time_ex) matches Some(n)
                && old(self).spec_nds()[n as int].childs@.len() == 0),
            !r ==> *final(self) == *old(self),
            r && !degen ==> trip_added(*old(self), *final(self), *trip, r_attrs@, time_ex),
            r && degen ==> {
                let n = find(old(self).spec_nds(), *trip, time_ex)->0;
                &&& final(self).spec_nds() == old(self).spec_nds()
                &&& ends_with(old(self).ends(), final(self).ends(), n, trip.id@)
                &&& final(self).trip_nodes() == old(self).trip_nodes().insert(trip.id@, n)
                &&& final(self).added() == old(self).added()
            },
    {
        if !degen {
            return self.add(trip, r_attrs, time_ex);
        }
        match self.get(trip, time_ex) {
            Some(existing) => {
                if self.nds[existing].childs.len() == 0 {
                    self.end_at(existing, &trip.id);
                    true
                } else {
                    false
                }
            },
            None => false,
        }
    }
}

proof fn lemma_acc_bound(trips: u64, acc: i128)
    requires
        -(trips as int) * 0x1_0000_0000 <= acc <= (trips as int) * 0x1_0000_0000,
    ensures
        -0x1_0000_0000_0000_0000_0000_0000_0000 <= acc <= 0x1_0000_0000_0000_0000_0000_0000_0000,
{
    let t = trips as int;
    assert(t * 0x1_0000_0000 <= 0xffff_ffff_ffff_ffff * 0x1_0000_0000);
}

/// Whether these are the nodes that the steps of a trip lead to, one after the other.
pub open spec fn is_way(nds: Seq<TripTrieNd>, trip: TrieTrip, time_ex: bool, path: Seq<usize>) -> bool {
    &&& path.len() == steps_of(trip).len()
    &&& forall|j: int|
        0 <= j < path.len() ==> descend(nds, trip.stop_times@, steps_of(trip), time_ex, j + 1)
            == Some(#[trigger] path[j])
}

/// Whether the nodes have grown by the way of a trip.
pub open spec fn grown_by(
    before: Seq<TripTrieNd>,
    after: Seq<TripTrieNd>,
    trip: TrieTrip,
    attrs: (Seq<char>, Seq<char>, Seq<char>),
    time_ex: bool,
) -> bool {
    exists|path: Seq<usize>| #[trigger]
        grown(before, after, path, trip.stop_times@, steps_of(trip), attrs) && is_way(
            after,
            trip,
            time_ex,
            path,
        )
}

/// What adding a trip does: the tree grows by its way, which can be found afterwards, and the trip
/// is noted where the way ends.
pub open spec fn trip_added(
    before: TripTrie,
    after: TripTrie,
    trip: TrieTrip,
    attrs: (Seq<char>, Seq<char>, Seq<char>),
    time_ex: bool,
) -> bool {
    &&& grown_by(before.spec_nds(), after.spec_nds(), trip, attrs, time_ex)
    &&& find(after.spec_nds(), trip, time_ex) is Some
    &&& find(after.spec_nds(), trip, time_ex)->0 < after.spec_nds().len()
    &&& ends_with(
        before.ends(),
        after.ends(),
        find(after.spec_nds(), trip, time_ex)->0,
        trip.id@,
    )
    &&& after.trip_nodes() == before.trip_nodes().insert(
        trip.id@,
        find(after.spec_nds(), trip, time_ex)->0,
    )
    &&& after.added() == before.added() + 1
}

impl TripTrie {
    /// A tree has a root.
    pub proof fn lemma_nonempty(&self)
        requires
            self.wf(),
        ensures
            self.spec_nds().len() > 0,
            is_tree(self.spec_nds()),
    {
        lemma_root(self.nds@);
    }

    /// The nodes at which trips end are nodes of the tree.
    pub proof fn lemma_ends(&self, n: usize)
        requires
            self.wf(),
            self.ends().contains_key(n),
        ensures
            n < self.spec_nds().len(),
    {
    }

    /// What the nodes of a tree count stays in bounds.
    pub proof fn lemma_counts(&self, n: int)
        requires
            self.wf(),
            0 <= n < self.spec_nds().len(),
        ensures
            -(self.spec_nds()[n].trips as int) * 0x1_0000_0000 <= self.spec_nds()[n].acc_time <= (
            self.spec_nds()[n].trips as int) * 0x1_0000_0000,
            -0x1_0000_0000 <= self.spec_nds()[n].time <= 0x1_0000_0000,
    {
    }
}

/// A node stays what it is matched by, and keeps its children in front, when a trip is added.
proof fn lemma_grown_node(
    before: Seq<TripTrieNd>,
    after: Seq<TripTrieNd>,
    path: Seq<usize>,
    stops: Seq<TrieStop>,
    steps: Seq<TrieStep>,
    attrs: (Seq<char>, Seq<char>, Seq<char>),
    i: int,
)
    requires
        grown(before, after, path, stops, steps, attrs),
        0 <= i < before.len() <= usize::MAX,
    ensures
        same_key(before[i], after[i]),
        after[i].childs@.len() >= before[i].childs@.len(),
        after[i].childs@.take(before[i].childs@.len() as int) == before[i].childs@,
{
    if path.contains(i as usize) {
        let j = choose|j: int| 0 <= j < path.len() && path[j] == i as usize;
        assert(path[j] == i);
    } else {
        assert(kept(before[i], after[i]));
    }
}

/// A way that a tree has stays when a trip is added: its steps lead to the same nodes as before.
pub proof fn lemma_ways_stay(
    before: TripTrie,
    after: TripTrie,
    trip: TrieTrip,
    attrs: (Seq<char>, Seq<char>, Seq<char>),
    time_ex: bool,
    stops: Seq<TrieStop>,
    steps: Seq<TrieStep>,
    exact: bool,
    k: int,
)
    requires
        before.wf(),
        trip_added(before, after, trip, attrs, time_ex),
        descend(before.spec_nds(), stops, steps, exact, k) is Some,
    ensures
        descend(after.spec_nds(), stops, steps, exact, k) == descend(
            before.spec_nds(),
            stops,
            steps,
            exact,
            k,
        ),
        descend(before.spec_nds(), stops, steps, exact, k)->0 < before.spec_nds().len(),
    decreases k,
{
    let a = before.spec_nds();
    let b = after.spec_nds();
    before.lemma_nonempty();
    if k > 0 {
        lemma_ways_stay(before, after, trip, attrs, time_ex, stops, steps, exact, k - 1);
        let path = choose|path: Seq<usize>| #[trigger]
            grown(a, b, path, trip.stop_times@, steps_of(trip), attrs) && is_way(
                b,
                trip,
                time_ex,
                path,
            );
        let n = descend(a, stops, steps, exact, k - 1)->0 as int;
        let stop = stops[steps[k - 1].stop as int];
        let time = steps[k - 1].time;
        let childs = a[n].childs@;
        let len = before.nds.len();
        assert forall|m: int| 0 <= m < childs.len() implies same_key(
            a[(#[trigger] childs[m]) as int],
            b[childs[m] as int],
        ) by {
            lemma_child(a, n, m);
            lemma_grown_node(a, b, path, trip.stop_times@, steps_of(trip), attrs, childs[m] as int);
        }
        lemma_grown_node(a, b, path, trip.stop_times@, steps_of(trip), attrs, n);
        lemma_first_match_same(a, b, childs, stop, time, exact);
        lemma_first_match_prefix(b, b[n].childs@, childs.len() as int, stop, time, exact);
        lemma_first_match_child(a, childs, stop, time, exact);
        let c = first_match(a, childs, stop, time, exact)->0;
        let m = choose|m: int| 0 <= m < childs.len() && childs[m] == c;
        lemma_child(a, n, m);
    }
}

/// Trips with the same stops share their nodes: a trip whose way the tree has already is counted at the
/// nodes of that way, and no node is made for it.
pub proof fn lemma_way_shared(
    before: TripTrie,
    after: TripTrie,
    trip: TrieTrip,
    attrs: (Seq<char>, Seq<char>, Seq<char>),
    time_ex: bool,
)
    requires
        before.wf(),
        trip_added(before, after, trip, attrs, time_ex),
        find(before.spec_nds(), trip, time_ex) is Some,
    ensures
        after.spec_nds().len() == before.spec_nds().len(),
        find(after.spec_nds(), trip, time_ex) == find(before.spec_nds(), trip, time_ex),
        forall|k: int|
            0 < k <= steps_of(trip).len() ==> {
                let n = #[trigger] descend(
                    before.spec_nds(),
                    trip.stop_times@,
                    steps_of(trip),
                    time_ex,
                    k,
                );
                &&& n is Some
                &&& n->0 < before.spec_nds().len()
                &&& descend(after.spec_nds(), trip.stop_times@, steps_of(trip), time_ex, k) == n
                &&& counted(
                    before.spec_nds()[n->0 as int],
                    after.spec_nds()[n->0 as int],
                    steps_of(trip)[k - 1].time,
                    attrs,
                )
            },
{
    let a = before.spec_nds();
    let b = after.spec_nds();
    let stops = trip.stop_times@;
    let steps = steps_of(trip);
    let path = choose|path: Seq<usize>| #[trigger]
        grown(a, b, path, stops, steps, attrs) && is_way(b, trip, time_ex, path);
    assert forall|k: int| 0 <= k <= steps.len() implies (#[trigger] descend(a, stops, steps, time_ex, k))
        is Some by {
        if descend(a, stops, steps, time_ex, k) is None {
            lemma_descend_none(a, stops, steps, time_ex, k, steps.len() as int);
        }
    }
    assert forall|k: int| 0 < k <= steps.len() implies {
        let n = #[trigger] descend(a, stops, steps, time_ex, k);
        &&& n->0 < a.len()
        &&& descend(b, stops, steps, time_ex, k) == n
        &&& path[k - 1] == n->0
        &&& counted(a[n->0 as int], b[n->0 as int], steps[k - 1].time, attrs)
    } by {
        lemma_ways_stay(before, after, trip, attrs, time_ex, stops, steps, time_ex, k);
        assert(descend(b, stops, steps, time_ex, (k - 1) + 1) == Some(path[k - 1]));
    }
    let last = steps.len() as int;
    assert(descend(a, stops, steps, time_ex, last) is Some);
    lemma_ways_stay(before, after, trip, attrs, time_ex, stops, steps, time_ex, last);
    if b.len() > a.len() {
        let len = before.nds.len();
        let i = a.len() as usize;
        assert(path.contains(i));
        let j = choose|j: int| 0 <= j < path.len() && path[j] == i;
        assert(descend(a, stops, steps, time_ex, j + 1) is Some);
    }
}

/// What a tree becomes when it is offered a trip.
pub open spec fn offered(
    before: TripTrie,
    after: TripTrie,
    trip: TrieTrip,
    attrs: (Seq<char>, Seq<char>, Seq<char>),
) -> bool {
    if before.accepts(trip, false) {
        trip_added(before, after, trip, attrs, false)
    } else {
        after == before
    }
}

/// Whether a tree has grown from its root, trip by trip. A trip that begins elsewhere than those before
/// it is left out.
pub open spec fn is_built(
    stages: Seq<TripTrie>,
    trips: Seq<TrieTrip>,
    attrs: (Seq<char>, Seq<char>, Seq<char>),
) -> bool {
    &&& stages.len() == trips.len() + 1
    &&& stages[0].is_new()
    &&& forall|i: int| 0 <= i < stages.len() ==> (#[trigger] stages[i]).wf()
    &&& forall|i: int|
        #![trigger trips[i]]
        0 <= i < trips.len() ==> offered(stages[i], stages[i + 1], trips[i], attrs)
}

/// Every trip that was not left out can be found in the tree, whatever was added after it.
pub proof fn lemma_built_finds(
    stages: Seq<TripTrie>,
    trips: Seq<TrieTrip>,
    attrs: (Seq<char>, Seq<char>, Seq<char>),
    i: int,
    n: int,
)
    requires
        is_built(stages, trips, attrs),
        0 <= i < n < stages.len(),
        stages[i].accepts(trips[i], false),
    ensures
        find(stages[n].spec_nds(), trips[i], false) is Some,
        find(stages[n].spec_nds(), trips[i], false) == find(
            stages[i + 1].spec_nds(),
            trips[i],
            false,
        ),
    decreases n,
{
    assert(offered(stages[i], stages[i + 1], trips[i], attrs));
    if n > i + 1 {
        lemma_built_finds(stages, trips, attrs, i, n - 1);
        assert(stages[n - 1].wf());
        assert(offered(stages[n - 1], stages[n - 1 + 1], trips[n - 1], attrs));
        if stages[n - 1].accepts(trips[n - 1], false) {
            lemma_ways_stay(
                stages[n - 1],
                stages[n],
                trips[n - 1],
                attrs,
                false,
                trips[i].stop_times@,
                steps_of(trips[i]),
                false,
                steps_of(trips[i]).len() as int,
            );
        }
    }
}

/// The tree of the trips of a pattern.
pub fn build_trie(trips: &Vec<TrieTrip>, attrs: &RoutingAttrs) -> (r: TripTrie)
    requires
        forall|i: int| 0 <= i < trips@.len() ==> trip_ok(#[trigger] trips@[i]),
    ensures
        r.wf(),
        exists|stages: Seq<TripTrie>| #[trigger]
            is_built(stages, trips@, attrs@) && stages.last() == r,
{
    let mut r = TripTrie::new();
    let ghost mut stages = seq![r];
    let mut i: usize = 0;
    while i < trips.len()
        invariant
            i <= trips@.len(),
            forall|i: int| 0 <= i < trips@.len() ==> trip_ok(#[trigger] trips@[i]),
            r.wf(),
            r.added() <= i,
            stages.len() == i + 1,
            stages.last() == r,
            is_built(stages, trips@.take(i as int), attrs@),
        decreases trips@.len() - i,
    {
        let trip = &trips[i];
        let ghost before = r;
        let ghost first = stages;
        r.add_trip(trip, attrs, false, false);
        proof {
            stages = stages.push(r);
            let done = trips@.take(i as int);
            let more = trips@.take(i + 1);
            assert(offered(before, r, *trip, attrs@));
            assert forall|j: int| #![trigger more[j]] 0 <= j < more.len() implies offered(
                stages[j],
                stages[j + 1],
                more[j],
                attrs@,
            ) by {
                if j < i {
                    assert(done[j] == more[j]);
                    assert(stages[j] == first[j] && stages[j + 1] == first[j + 1]);
                }
            }
        }
        i = i + 1;
    }
    assert(trips@.take(i as int) =~= trips@);
    r
}

/// A trip departs from every stop but the last and arrives at every stop but the first, one after the other. The
/// time of a step is how long after the first departure it is planned, as far as both are known.
pub proof fn lemma_steps(stops: Seq<TrieStop>, n: int)
    requires
        0 < n <= stops.len() <= usize::MAX,
    ensures
        steps_upto(stops, n).len() == (if n < stops.len() {
            2 * n - 1
        } else {
            2 * n - 2
        }),
        forall|k: int|
            #![trigger steps_upto(stops, n)[k]]
            0 <= k < steps_upto(stops, n).len() ==> is_step(stops, k, steps_upto(stops, n)[k]),
    decreases n,
{
    let steps = steps_upto(stops, n);
    if n > 1 {
        lemma_steps(stops, n - 1);
        let rest = steps_upto(stops, n - 1);
        assert forall|k: int| #![trigger steps[k]] 0 <= k < steps.len() implies is_step(
            stops,
            k,
            steps[k],
        ) by {
            if k < rest.len() {
                assert(steps[k] == rest[k]);
            }
        }
    } else {
        assert(steps_upto(stops, 0) =~= Seq::empty());
    }
}

/// Whether a step is number `k` of a trip: a departure if that is even, else an arrival at the next stop.
pub open spec fn is_step(stops: Seq<TrieStop>, k: int, step: TrieStep) -> bool {
    let planned = if step.arr {
        stops[step.stop as int].arrival
    } else {
        stops[step.stop as int].departure
    };
    &&& step.arr == (k % 2 == 1)
    &&& step.stop == (k + 1) / 2
    &&& planned is None ==> step.time == 0
    &&& planned is Some && stops[0].departure is Some ==> step.time + stops[0].departure->0
        == planned->0
    &&& planned is Some && stops[0].departure is None ==> step.time == planned->0
}

} // verus!
