//! The stops of trips, and the patterns that trips share.

use crate::hashed::{
    id_slots_get, id_slots_new, id_slots_push, indices_contains, indices_of, names_get,
    names_insert, names_new, names_of, slots_at, IdSlots, IndexSet, NameIndex,
};
use crate::mots::{category_of, map_route_type_to_category, RouteType};
use crate::text::str_eq;
use vstd::prelude::*;
use vstd::slice::slice_to_vec;

verus! {

/// A stop of a trip: its place in the trip and the stop, by its position among the stops.
#[derive(Debug, Clone, Copy, PartialEq, Eq, Structural)]
pub struct StopTime {
    pub stop_sequence: u32,
    pub stop: usize,
}

/// A row of the table of stop times. A stop that is not known is missing.
#[derive(Debug)]
pub struct StopTimeRow {
    pub trip_id: String,
    pub stop_sequence: u32,
    pub stop: Option<usize>,
}

/// Where the reading of stop times is: the trip whose rows are being read, its rows, and the stops of
/// all trips.
pub struct ReadState {
    pub current: Seq<char>,
    pub buffer: Seq<StopTime>,
    pub times: Seq<Seq<StopTime>>,
}

/// The rows that have been read go to their trip, if it is known.
pub open spec fn flushed(s: ReadState, trips: Map<Seq<char>, usize>) -> ReadState {
    ReadState {
        current: s.current,
        buffer: Seq::empty(),
        times: if trips.contains_key(s.current) {
            let at = trips[s.current] as int;
            s.times.update(at, s.times[at] + s.buffer)
        } else {
            s.times
        },
    }
}

/// A row is read: where another trip begins, the rows of the one before go to it.
pub open spec fn after_row(s: ReadState, row: StopTimeRow, trips: Map<Seq<char>, usize>) -> ReadState {
    let t = if s.current.len() > 0 && row.trip_id@ != s.current {
        flushed(s, trips)
    } else {
        s
    };
    ReadState {
        current: row.trip_id@,
        buffer: if row.stop is Some {
            t.buffer.push(StopTime { stop_sequence: row.stop_sequence, stop: row.stop->0 })
        } else {
            t.buffer
        },
        times: t.times,
    }
}

/// The first `n` rows are read.
pub open spec fn after_rows(
    s: ReadState,
    rows: Seq<StopTimeRow>,
    n: int,
    trips: Map<Seq<char>, usize>,
) -> ReadState
    decreases n,
{
    if n <= 0 {
        s
    } else {
        after_row(after_rows(s, rows, n - 1, trips), rows[n - 1], trips)
    }
}

/// The stops of all trips once all rows have been read.
pub open spec fn injected(
    times: Seq<Seq<StopTime>>,
    rows: Seq<StopTimeRow>,
    trips: Map<Seq<char>, usize>,
) -> Seq<Seq<StopTime>> {
    let s = after_rows(
        ReadState { current: Seq::empty(), buffer: Seq::empty(), times },
        rows,
        rows.len() as int,
        trips,
    );
    if s.current.len() > 0 {
        flushed(s, trips).times
    } else {
        s.times
    }
}

/// Reads stop times row by row.
pub struct StopTimeReader {
    pub current_trip_id: String,
    pub buffer: Vec<StopTime>,
    /// The stops of every trip.
    pub times: Vec<Vec<StopTime>>,
}

impl StopTimeReader {
    pub open spec fn state(&self) -> ReadState {
        ReadState {
            current: self.current_trip_id@,
            buffer: self.buffer@,
            times: self.times@.map_values(|v: Vec<StopTime>| v@),
        }
    }

    /// Nothing has been read of the stops of some trips.
    pub fn new(trips: usize) -> (r: Self)
        ensures
            r.state().current == Seq::<char>::empty(),
            r.state().buffer == Seq::<StopTime>::empty(),
            r.times@.len() == trips,
            forall|i: int|
                #![trigger r.state().times[i]]
                0 <= i < trips ==> r.state().times[i] == Seq::<StopTime>::empty(),
    {
        let mut times: Vec<Vec<StopTime>> = Vec::new();
        let mut i: usize = 0;
        while i < trips
            invariant
                i <= trips,
                times@.len() == i,
                forall|k: int|
                    #![trigger times@[k]]
                    0 <= k < i ==> times@[k]@ == Seq::<StopTime>::empty(),
            decreases trips - i,
        {
            times.push(Vec::new());
            i = i + 1;
        }
        let r = StopTimeReader { current_trip_id: String::new(), buffer: Vec::new(), times };
        proof {
            assert(r.state().current =~= Seq::<char>::empty());
            assert forall|i: int|
                #![trigger r.state().times[i]]
                0 <= i < trips implies r.state().times[i] == Seq::<StopTime>::empty() by {
                assert(r.state().times[i] == times@[i]@);
            }
        }
        r
    }

    fn flush(&mut self, trips: &NameIndex)
        requires
            forall|t: Seq<char>| #[trigger]
                names_of(*trips).contains_key(t) ==> names_of(*trips)[t] < old(self).times@.len(),
        ensures
            final(self).state() == flushed(old(self).state(), names_of(*trips)),
            final(self).times@.len() == old(self).times@.len(),
    {
        let ghost s0 = self.state();
        match names_get(trips, self.current_trip_id.as_str()) {
            Some(at) => {
                let ghost t0 = self.times@;
                let mut list: Vec<StopTime> = slice_to_vec(self.times[at].as_slice());
                list.extend_from_slice(self.buffer.as_slice());
                assert(list@ =~= t0[at as int]@ + self.buffer@);
                self.times.set(at, list);
                self.buffer = Vec::new();
                assert(self.state().times =~= s0.times.update(
                    at as int,
                    s0.times[at as int] + s0.buffer,
                ));
            },
            None => {
                self.buffer = Vec::new();
            },
        }
        assert(self.state().buffer =~= Seq::<StopTime>::empty());
    }

    /// Reads a row.
    pub fn read_row(&mut self, row: StopTimeRow, trips: &NameIndex)
        requires
            forall|t: Seq<char>| #[trigger]
                names_of(*trips).contains_key(t) ==> names_of(*trips)[t] < old(self).times@.len(),
        ensures
            final(self).state() == after_row(old(self).state(), row, names_of(*trips)),
            final(self).times@.len() == old(self).times@.len(),
    {
        let ghost s0 = self.state();
        if self.current_trip_id.as_str().unicode_len() > 0 && !str_eq(
            row.trip_id.as_str(),
            self.current_trip_id.as_str(),
        ) {
            self.flush(trips);
        }
        let ghost s1 = self.state();
        self.current_trip_id = row.trip_id;
        if let Some(stop) = row.stop {
            self.buffer.push(StopTime { stop_sequence: row.stop_sequence, stop });
        }
        assert(self.state().times =~= s1.times);
    }

    /// Gives the last trip its rows and hands out the stops of all trips.
    pub fn finish(self, trips: &NameIndex) -> (r: Vec<Vec<StopTime>>)
        requires
            forall|t: Seq<char>| #[trigger]
                names_of(*trips).contains_key(t) ==> names_of(*trips)[t] < self.times@.len(),
        ensures
            r@.map_values(|v: Vec<StopTime>| v@) == (if self.state().current.len() > 0 {
                flushed(self.state(), names_of(*trips)).times
            } else {
                self.state().times
            }),
    {
        let mut me = self;
        if me.current_trip_id.as_str().unicode_len() > 0 {
            me.flush(trips);
        }
        me.times
    }
}

/// Whether a table gives every name of a list its position, the last one if it occurs more than once.
pub open spec fn are_positions(m: Map<Seq<char>, usize>, names: Seq<String>) -> bool {
    &&& forall|i: int| #![trigger names[i]] 0 <= i < names.len() ==> m.contains_key(names[i]@)
    &&& forall|t: Seq<char>| #[trigger]
        m.contains_key(t) ==> {
            &&& m[t] < names.len()
            &&& names[m[t] as int]@ == t
            &&& forall|j: int|
                #![trigger names[j]]
                m[t] < j < names.len() ==> names[j]@ != t
        }
}

/// The positions of the names of a list.
pub fn positions_of(names: &Vec<String>) -> (r: NameIndex)
    ensures
        are_positions(names_of(r), names@),
{
    let mut r = names_new();
    let mut i: usize = 0;
    while i < names.len()
        invariant
            i <= names@.len(),
            are_positions(names_of(r), names@.take(i as int)),
        decreases names@.len() - i,
    {
        let ghost m = names_of(r);
        let ghost before = names@.take(i as int);
        let ghost now = names@.take(i + 1);
        names_insert(&mut r, names[i].clone(), i);
        proof {
            let m2 = names_of(r);
            let name = names@[i as int]@;
            assert forall|k: int| #![trigger now[k]] 0 <= k < now.len() implies m2.contains_key(
                now[k]@,
            ) by {
                if k < i {
                    assert(now[k] == before[k]);
                }
            }
            assert forall|t: Seq<char>| #[trigger] m2.contains_key(t) implies {
                &&& m2[t] < now.len()
                &&& now[m2[t] as int]@ == t
                &&& forall|j: int| #![trigger now[j]] m2[t] < j < now.len() ==> now[j]@ != t
            } by {
                if t != name {
                    assert(m.contains_key(t));
                    assert forall|j: int| #![trigger now[j]] m2[t] < j < now.len() implies now[j]@
                        != t by {
                        if j < i {
                            assert(now[j] == before[j]);
                        }
                    }
                    assert(now[m2[t] as int] == before[m[t] as int]);
                }
            }
        }
        i = i + 1;
    }
    assert(names@.take(i as int) =~= names@);
    r
}

/// Reads all rows of the table of stop times into the stops of trips.
pub fn faster_stop_time_reader_injection(
    rows: Vec<StopTimeRow>,
    trips: &NameIndex,
    trip_count: usize,
) -> (r: Vec<Vec<StopTime>>)
    requires
        forall|t: Seq<char>| #[trigger]
            names_of(*trips).contains_key(t) ==> names_of(*trips)[t] < trip_count,
    ensures
        r@.map_values(|v: Vec<StopTime>| v@) == injected(
            Seq::new(trip_count as nat, |i: int| Seq::<StopTime>::empty()),
            rows@,
            names_of(*trips),
        ),
{
    let ghost all = rows@;
    let mut reader = StopTimeReader::new(trip_count);
    let ghost s0 = reader.state();
    let ghost mut n: int = 0;
    assert(s0.times =~= Seq::new(trip_count as nat, |i: int| Seq::<StopTime>::empty()));
    for row in it: rows.into_iter()
        invariant
            it.seq() == all,
            n == it.index(),
            forall|t: Seq<char>| #[trigger]
                names_of(*trips).contains_key(t) ==> names_of(*trips)[t] < trip_count,
            reader.times@.len() == trip_count,
            reader.state() == after_rows(s0, all, n, names_of(*trips)),
    {
        reader.read_row(row, trips);
        proof {
            n = n + 1;
        }
    }
    reader.finish(trips)
}

/// The rows of a trip among the first `n`, as stops, in their order.
pub open spec fn rows_of_trip(rows: Seq<StopTimeRow>, n: int, trip: Seq<char>) -> Seq<StopTime>
    decreases n,
{
    if n <= 0 {
        Seq::empty()
    } else {
        let rest = rows_of_trip(rows, n - 1, trip);
        let row = rows[n - 1];
        if row.trip_id@ == trip && row.stop is Some {
            rest.push(StopTime { stop_sequence: row.stop_sequence, stop: row.stop->0 })
        } else {
            rest
        }
    }
}

/// What the trips have got and what is still in the buffer are the rows of each trip so far.
proof fn lemma_rows_so_far(
    times: Seq<Seq<StopTime>>,
    rows: Seq<StopTimeRow>,
    n: int,
    trips: Map<Seq<char>, usize>,
    trip: Seq<char>,
)
    requires
        0 <= n <= rows.len(),
        forall|i: int| 0 <= i < rows.len() ==> (#[trigger] rows[i]).trip_id@.len() > 0,
        trips.contains_key(trip),
        forall|t: Seq<char>| #[trigger] trips.contains_key(t) ==> trips[t] < times.len(),
        forall|t: Seq<char>, u: Seq<char>|
            #![trigger trips[t], trips[u]]
            trips.contains_key(t) && trips.contains_key(u) && trips[t] == trips[u] ==> t == u,
    ensures
        ({
            let s0 = ReadState { current: Seq::empty(), buffer: Seq::empty(), times };
            let s = after_rows(s0, rows, n, trips);
            &&& s.times.len() == times.len()
            &&& n > 0 ==> s.current == rows[n - 1].trip_id@
            &&& n == 0 ==> s == s0
            &&& s.times[trips[trip] as int] + (if s.current == trip {
                s.buffer
            } else {
                Seq::empty()
            }) == times[trips[trip] as int] + rows_of_trip(rows, n, trip)
        }),
    decreases n,
{
    let s0 = ReadState { current: Seq::empty(), buffer: Seq::empty(), times };
    let at = trips[trip] as int;
    if n == 0 {
        assert(times[at] + Seq::<StopTime>::empty() =~= times[at]);
        assert(s0.times[at] + (if s0.current == trip {
            s0.buffer
        } else {
            Seq::empty()
        }) =~= times[at] + rows_of_trip(rows, 0, trip));
    } else {
        lemma_rows_so_far(times, rows, n - 1, trips, trip);
        let p = after_rows(s0, rows, n - 1, trips);
        let s = after_rows(s0, rows, n, trips);
        let row = rows[n - 1];
        let rest = rows_of_trip(rows, n - 1, trip);
        let all = rows_of_trip(rows, n, trip);
        if n > 1 {
            assert(rows[n - 2].trip_id@.len() > 0);
        }
        let flushes = p.current.len() > 0 && row.trip_id@ != p.current;
        let t = if flushes {
            flushed(p, trips)
        } else {
            p
        };
        // The trip has got its rows if it is no longer the one being read.
        let held = if row.trip_id@ == trip {
            t.buffer
        } else {
            Seq::empty()
        };
        if flushes {
            if p.current == trip {
                assert(t.times[at] + held =~= p.times[at] + p.buffer);
            } else {
                if trips.contains_key(p.current) {
                    assert(trips[p.current] != trips[trip]);
                }
                assert(t.times[at] == p.times[at]);
                assert(held =~= Seq::<StopTime>::empty());
            }
        } else if n > 1 {
            assert(p.current == row.trip_id@);
        } else {
            assert(p == s0);
        }
        assert(t.times[at] + held =~= times[at] + rest);
        if row.trip_id@ == trip && row.stop is Some {
            let x = StopTime { stop_sequence: row.stop_sequence, stop: row.stop->0 };
            assert(s.times[at] + s.buffer =~= (t.times[at] + held).push(x));
            assert(times[at] + all =~= (times[at] + rest).push(x));
        }
    }
}

/// Every trip that is known gets exactly its rows with known stops, in their order, wherever in the
/// table they stand.
pub proof fn lemma_trips_get_their_rows(
    times: Seq<Seq<StopTime>>,
    rows: Seq<StopTimeRow>,
    trips: Map<Seq<char>, usize>,
    trip: Seq<char>,
)
    requires
        forall|i: int| 0 <= i < rows.len() ==> (#[trigger] rows[i]).trip_id@.len() > 0,
        trips.contains_key(trip),
        forall|t: Seq<char>| #[trigger] trips.contains_key(t) ==> trips[t] < times.len(),
        forall|t: Seq<char>, u: Seq<char>|
            #![trigger trips[t], trips[u]]
            trips.contains_key(t) && trips.contains_key(u) && trips[t] == trips[u] ==> t == u,
    ensures
        injected(times, rows, trips)[trips[trip] as int] == times[trips[trip] as int] + rows_of_trip(
            rows,
            rows.len() as int,
            trip,
        ),
{
    let n = rows.len() as int;
    let at = trips[trip] as int;
    lemma_rows_so_far(times, rows, n, trips, trip);
    let s0 = ReadState { current: Seq::empty(), buffer: Seq::empty(), times };
    let s = after_rows(s0, rows, n, trips);
    if n > 0 {
        assert(rows[n - 1].trip_id@.len() > 0);
        if s.current == trip {
        } else {
            if trips.contains_key(s.current) {
                assert(trips[s.current] != trips[trip]);
            }
            assert(s.times[at] + Seq::<StopTime>::empty() =~= s.times[at]);
        }
    } else {
        assert(s.times[at] + (if s.current == trip {
            s.buffer
        } else {
            Seq::empty()
        }) =~= s.times[at]);
    }
}

/// Whether routes of a type are wanted: their mode is one of those allowed.
pub fn route_allowed(route_type: RouteType, allowed_mots: &IndexSet) -> (r: bool)
    ensures
        r == indices_of(*allowed_mots).contains(category_of(route_type).position()),
{
    indices_contains(allowed_mots, map_route_type_to_category(route_type).number())
}

// Patterns.

/// How many stops come no later in a trip.
pub open spec fn rank(s: Seq<StopTime>, x: StopTime) -> int
    decreases s.len(),
{
    if s.len() == 0 {
        0
    } else if s.last().stop_sequence <= x.stop_sequence {
        s.len() as int
    } else {
        rank(s.drop_last(), x)
    }
}

/// Stops in the order of their places in the trip; equal places keep their order.
pub open spec fn in_order(s: Seq<StopTime>) -> Seq<StopTime>
    decreases s.len(),
{
    if s.len() == 0 {
        s
    } else {
        let rest = in_order(s.drop_last());
        rest.insert(rank(rest, s.last()), s.last())
    }
}

/// The stops of a trip by their positions, in order.
pub open spec fn stop_list(s: Seq<StopTime>) -> Seq<usize> {
    in_order(s).map_values(|x: StopTime| x.stop)
}

proof fn lemma_rank_range(s: Seq<StopTime>, x: StopTime)
    ensures
        0 <= rank(s, x) <= s.len(),
        forall|i: int| rank(s, x) <= i < s.len() ==> (#[trigger] s[i]).stop_sequence
            > x.stop_sequence,
        rank(s, x) > 0 ==> s[rank(s, x) - 1].stop_sequence <= x.stop_sequence,
    decreases s.len(),
{
    if s.len() > 0 && s.last().stop_sequence > x.stop_sequence {
        lemma_rank_range(s.drop_last(), x);
        assert forall|i: int| rank(s, x) <= i < s.len() implies (#[trigger] s[i]).stop_sequence
            > x.stop_sequence by {
            if i < s.len() - 1 {
                assert(s.drop_last()[i] == s[i]);
            }
        }
    }
}

/// The stops of a trip stand in the order of their places.
pub proof fn lemma_in_order(s: Seq<StopTime>)
    ensures
        in_order(s).len() == s.len(),
        forall|i: int, j: int|
            #![trigger in_order(s)[i], in_order(s)[j]]
            0 <= i <= j < s.len() ==> in_order(s)[i].stop_sequence <= in_order(s)[j].stop_sequence,
        in_order(s).to_multiset() == s.to_multiset(),
    decreases s.len(),
{
    broadcast use vstd::seq_lib::group_to_multiset_ensures;

    if s.len() > 0 {
        let p = s.drop_last();
        lemma_in_order(p);
        let rest = in_order(p);
        let x = s.last();
        lemma_rank_range(rest, x);
        let k = rank(rest, x);
        let all = in_order(s);
        assert forall|i: int, j: int|
            #![trigger all[i], all[j]]
            0 <= i <= j < s.len() implies all[i].stop_sequence <= all[j].stop_sequence by {
            if i < k && j == k {
                assert(rest[i].stop_sequence <= rest[k - 1].stop_sequence);
            }
            if j < k {
                assert(rest[i].stop_sequence <= rest[j].stop_sequence);
            }
            if i > k {
                assert(rest[i - 1].stop_sequence <= rest[j - 1].stop_sequence);
            }
            if i < k && j > k {
                assert(rest[i].stop_sequence <= rest[j - 1].stop_sequence);
            }
        }
        assert(rest.insert(k, x).to_multiset() =~= rest.to_multiset().insert(x));
        assert(s =~= p.push(x));
        assert(s.to_multiset() =~= p.to_multiset().insert(x));
    }
}

fn rank_of(s: &Vec<StopTime>, x: StopTime) -> (r: usize)
    ensures
        r == rank(s@, x),
        r <= s@.len(),
{
    let mut k: usize = s.len();
    assert(s@.take(k as int) =~= s@);
    while k > 0 && s[k - 1].stop_sequence > x.stop_sequence
        invariant
            k <= s@.len(),
            rank(s@.take(k as int), x) == rank(s@, x),
        decreases k,
    {
        assert(s@.take(k as int).drop_last() =~= s@.take(k - 1));
        k = k - 1;
    }
    k
}

/// The stops of a trip by their positions, in order.
pub fn ordered_stops(times: &Vec<StopTime>) -> (r: Vec<usize>)
    ensures
        r@ == stop_list(times@),
{
    let mut sorted: Vec<StopTime> = Vec::new();
    let mut i: usize = 0;
    assert(times@.take(0) =~= Seq::<StopTime>::empty());
    while i < times.len()
        invariant
            i <= times@.len(),
            sorted@ == in_order(times@.take(i as int)),
        decreases times@.len() - i,
    {
        assert(times@.take(i + 1).drop_last() =~= times@.take(i as int));
        let at: usize = rank_of(&sorted, times[i]);
        sorted.insert(at, times[i]);
        i = i + 1;
    }
    assert(times@.take(i as int) =~= times@);
    let mut r: Vec<usize> = Vec::new();
    let mut k: usize = 0;
    while k < sorted.len()
        invariant
            k <= sorted@.len(),
            r@.len() == k,
            forall|j: int| #![trigger r@[j]] 0 <= j < k ==> r@[j] == sorted@[j].stop,
        decreases sorted@.len() - k,
    {
        r.push(sorted[k].stop);
        k = k + 1;
    }
    assert(r@ =~= stop_list(times@));
    r
}

/// A sequence of stops, by their positions among the stops, served by routes of one type.
#[derive(Debug)]
pub struct StopPattern {
    pub stop_ids: Vec<usize>,
    pub route_type: Option<RouteType>,
}

/// A pattern as plain values.
pub type Pattern = (Seq<usize>, Option<RouteType>);

impl View for StopPattern {
    type V = Pattern;

    open spec fn view(&self) -> Pattern {
        (self.stop_ids@, self.route_type)
    }
}

fn same_stops(a: &Vec<usize>, b: &Vec<usize>) -> (r: bool)
    ensures
        r == (a@ == b@),
{
    if a.len() != b.len() {
        return false;
    }
    let mut i: usize = 0;
    while i < a.len()
        invariant
            i <= a@.len(),
            a@.len() == b@.len(),
            forall|k: int| 0 <= k < i ==> a@[k] == b@[k],
        decreases a@.len() - i,
    {
        if a[i] != b[i] {
            return false;
        }
        i = i + 1;
    }
    assert(a@ =~= b@);
    true
}

fn same_type(a: Option<RouteType>, b: Option<RouteType>) -> (r: bool)
    ensures
        r == (a == b),
{
    match (a, b) {
        (Some(x), Some(y)) => x == y,
        (None, None) => true,
        _ => false,
    }
}

impl StopPattern {
    /// Whether two patterns are the same.
    pub fn same(&self, other: &StopPattern) -> (r: bool)
        ensures
            r == (self@ == other@),
    {
        same_type(self.route_type, other.route_type) && same_stops(&self.stop_ids, &other.stop_ids)
    }
}

/// A trip with the type of its route, if that is known, and its stops.
#[derive(Debug)]
pub struct TripStops {
    pub route_type: Option<RouteType>,
    pub times: Vec<StopTime>,
}

/// A pattern with the trips that follow it, by their positions.
#[derive(Debug)]
pub struct PatternGroup {
    pub pattern: StopPattern,
    pub trips: Vec<usize>,
}

/// Whether a trip follows a pattern: its route is known and it has stops.
pub open spec fn follows_pattern(t: TripStops) -> bool {
    t.route_type is Some && t.times@.len() > 0
}

/// The pattern that a trip follows.
pub open spec fn pattern_of(t: TripStops) -> Pattern {
    (stop_list(t.times@), t.route_type)
}

/// The patterns that the first `n` trips follow, each once, in the order in which they are met.
pub open spec fn patterns_met(trips: Seq<TripStops>, n: int) -> Seq<Pattern>
    decreases n,
{
    if n <= 0 {
        Seq::empty()
    } else {
        let rest = patterns_met(trips, n - 1);
        if follows_pattern(trips[n - 1]) && !rest.contains(pattern_of(trips[n - 1])) {
            rest.push(pattern_of(trips[n - 1]))
        } else {
            rest
        }
    }
}

/// The trips among the first `n` that follow a pattern, by their positions.
pub open spec fn trips_with(trips: Seq<TripStops>, n: int, p: Pattern) -> Seq<usize>
    decreases n,
{
    if n <= 0 {
        Seq::empty()
    } else {
        let rest = trips_with(trips, n - 1, p);
        if follows_pattern(trips[n - 1]) && pattern_of(trips[n - 1]) == p {
            rest.push((n - 1) as usize)
        } else {
            rest
        }
    }
}

/// Whether groups hold the patterns of the first `n` trips, with those trips.
pub open spec fn is_grouped(groups: Seq<PatternGroup>, trips: Seq<TripStops>, n: int) -> bool {
    &&& groups.len() == patterns_met(trips, n).len()
    &&& forall|k: int|
        #![trigger groups[k]]
        0 <= k < groups.len() ==> groups[k].pattern@ == patterns_met(trips, n)[k]
            && groups[k].trips@ == trips_with(trips, n, patterns_met(trips, n)[k])
}

/// A number by which a pattern is found again.
spec fn pattern_key(stops: Seq<usize>) -> int
    decreases stops.len(),
{
    if stops.len() == 0 {
        7
    } else {
        (pattern_key(stops.drop_last()) * 1_000_003 + stops.last() % 2_147_483_647) % 2_147_483_647
    }
}

fn key_of(stops: &Vec<usize>) -> (r: i64)
    ensures
        r == pattern_key(stops@),
{
    let mut h: u64 = 7;
    let mut i: usize = 0;
    assert(stops@.take(0) =~= Seq::<usize>::empty());
    while i < stops.len()
        invariant
            i <= stops@.len(),
            h == pattern_key(stops@.take(i as int)),
            h < 2_147_483_647,
        decreases stops@.len() - i,
    {
        assert(stops@.take(i + 1).drop_last() =~= stops@.take(i as int));
        h = (h * 1_000_003 + (stops[i] as u64) % 2_147_483_647) % 2_147_483_647;
        i = i + 1;
    }
    assert(stops@.take(i as int) =~= stops@);
    h as i64
}

/// Whether a table lists every group under the number of its pattern.
spec fn finds(m: IdSlots, groups: Seq<PatternGroup>) -> bool {
    &&& forall|h: i64, k: int|
        #![trigger slots_at(m)[h][k]]
        slots_at(m).contains_key(h) && 0 <= k < slots_at(m)[h].len() ==> slots_at(m)[h][k]
            < groups.len()
    &&& forall|g: int|
        #![trigger groups[g]]
        0 <= g < groups.len() ==> {
            let h = pattern_key(groups[g].pattern.stop_ids@) as i64;
            slots_at(m).contains_key(h) && slots_at(m)[h].contains(g as usize)
        }
}

fn find_group(m: &IdSlots, groups: &Vec<PatternGroup>, pattern: &StopPattern, key: i64) -> (r: Option<
    usize,
>)
    requires
        finds(*m, groups@),
        key == pattern_key(pattern.stop_ids@),
    ensures
        match r {
            Some(g) => g < groups@.len() && groups@[g as int].pattern@ == pattern@,
            None => forall|g: int|
                #![trigger groups@[g]]
                0 <= g < groups@.len() ==> groups@[g].pattern@ != pattern@,
        },
{
    if let Some(list) = id_slots_get(m, key) {
        let mut k: usize = 0;
        while k < list.len()
            invariant
                finds(*m, groups@),
                slots_at(*m).contains_key(key),
                list@ == slots_at(*m)[key],
                k <= list@.len(),
                forall|j: int|
                    0 <= j < k ==> groups@[(#[trigger] list@[j]) as int].pattern@ != pattern@,
            decreases list@.len() - k,
        {
            let g: usize = list[k];
            assert(slots_at(*m)[key][k as int] < groups@.len());
            if groups[g].pattern.same(pattern) {
                return Some(g);
            }
            k = k + 1;
        }
        proof {
            assert forall|g: int| #![trigger groups@[g]] 0 <= g < groups@.len() implies groups@[g].pattern@
                != pattern@ by {
                if groups@[g].pattern@ == pattern@ {
                    assert(groups@[g].pattern.stop_ids@ == pattern.stop_ids@);
                    assert(list@.contains(g as usize));
                    let j = choose|j: int| 0 <= j < list@.len() && list@[j] == g as usize;
                    assert(groups.len() == groups@.len());
                }
            }
        }
    } else {
        proof {
            assert forall|g: int| #![trigger groups@[g]] 0 <= g < groups@.len() implies groups@[g].pattern@
                != pattern@ by {
                if groups@[g].pattern@ == pattern@ {
                    assert(groups@[g].pattern.stop_ids@ == pattern.stop_ids@);
                }
            }
        }
    }
    None
}

proof fn lemma_trips_of_new(trips: Seq<TripStops>, n: int, p: Pattern)
    requires
        0 <= n <= trips.len(),
        !patterns_met(trips, n).contains(p),
    ensures
        trips_with(trips, n, p) == Seq::<usize>::empty(),
    decreases n,
{
    if n > 0 {
        let rest = patterns_met(trips, n - 1);
        let all = patterns_met(trips, n);
        if rest.contains(p) {
            let k = choose|k: int| 0 <= k < rest.len() && rest[k] == p;
            assert(all[k] == p);
        }
        lemma_trips_of_new(trips, n - 1, p);
        if follows_pattern(trips[n - 1]) && pattern_of(trips[n - 1]) == p {
            assert(all[rest.len() as int] == p);
        }
    }
}

proof fn lemma_met_distinct(trips: Seq<TripStops>, n: int)
    requires
        0 <= n <= trips.len(),
    ensures
        patterns_met(trips, n).no_duplicates(),
    decreases n,
{
    if n > 0 {
        lemma_met_distinct(trips, n - 1);
        let rest = patterns_met(trips, n - 1);
        let all = patterns_met(trips, n);
        assert forall|i: int, j: int| 0 <= i < all.len() && 0 <= j < all.len() && i != j implies all[i]
            != all[j] by {
            if i < rest.len() {
                assert(rest.contains(rest[i]));
            }
            if j < rest.len() {
                assert(rest.contains(rest[j]));
            }
        }
    }
}

/// Groups trips by the patterns that they follow.
pub fn group_patterns(trips: &Vec<TripStops>) -> (groups: Vec<PatternGroup>)
    ensures
        is_grouped(groups@, trips@, trips@.len() as int),
{
    let mut groups: Vec<PatternGroup> = Vec::new();
    let mut table = id_slots_new();
    let mut i: usize = 0;
    while i < trips.len()
        invariant
            i <= trips@.len(),
            is_grouped(groups@, trips@, i as int),
            finds(table, groups@),
        decreases trips@.len() - i,
    {
        let trip = &trips[i];
        let ghost g0 = groups@;
        let ghost met0 = patterns_met(trips@, i as int);
        let ghost met1 = patterns_met(trips@, i + 1);
        let ghost p = pattern_of(trips@[i as int]);
        proof {
            lemma_met_distinct(trips@, i as int);
        }
        if trip.route_type.is_some() && trip.times.len() > 0 {
            let pattern = StopPattern {
                stop_ids: ordered_stops(&trip.times),
                route_type: trip.route_type,
            };
            assert(pattern@ == p);
            let key: i64 = key_of(&pattern.stop_ids);
            match find_group(&table, &groups, &pattern, key) {
                Some(g) => {
                    groups[g].trips.push(i);
                    proof {
                        assert(met0[g as int] == p);
                        assert(met0.contains(p));
                        assert(met1 == met0);
                        assert(finds(table, groups@)) by {
                            assert forall|x: int| #![trigger groups@[x]] 0 <= x < groups@.len() implies {
                                let h = pattern_key(groups@[x].pattern.stop_ids@) as i64;
                                slots_at(table).contains_key(h) && slots_at(table)[h].contains(
                                    x as usize,
                                )
                            } by {
                                assert(groups@[x].pattern == g0[x].pattern);
                            }
                        }
                    }
                },
                None => {
                    let at: usize = groups.len();
                    let mut list: Vec<usize> = Vec::new();
                    list.push(i);
                    let ghost m0 = table;
                    id_slots_push(&mut table, key, at);
                    groups.push(PatternGroup { pattern, trips: list });
                    proof {
                        assert(!met0.contains(p)) by {
                            if met0.contains(p) {
                                let k = choose|k: int| 0 <= k < met0.len() && met0[k] == p;
                                assert(g0[k].pattern@ == p);
                            }
                        }
                        lemma_trips_of_new(trips@, i as int, p);
                        assert(list@ =~= trips_with(trips@, i + 1, p));
                        assert(groups@.drop_last() =~= g0);
                        lemma_table_push(m0, table, g0, groups@, key, at);
                    }
                },
            }
        }
        proof {
            assert forall|k: int| #![trigger groups@[k]] 0 <= k < groups@.len() implies groups@[k].pattern@
                == met1[k] && groups@[k].trips@ == trips_with(trips@, i + 1, met1[k]) by {
                if k < g0.len() {
                    assert(g0[k].pattern@ == met0[k]);
                    assert(met1[k] == met0[k]);
                }
            }
        }
        i = i + 1;
    }
    groups
}

proof fn lemma_table_push(
    m0: IdSlots,
    m: IdSlots,
    g0: Seq<PatternGroup>,
    g: Seq<PatternGroup>,
    key: i64,
    at: usize,
)
    requires
        finds(m0, g0),
        g.len() == g0.len() + 1,
        g.drop_last() == g0,
        at == g0.len(),
        key == pattern_key(g.last().pattern.stop_ids@),
        slots_at(m) == slots_at(m0).insert(
            key,
            (if slots_at(m0).contains_key(key) {
                slots_at(m0)[key]
            } else {
                Seq::<usize>::empty()
            }).push(at),
        ),
    ensures
        finds(m, g),
{
    let a = slots_at(m0);
    let b = slots_at(m);
    assert forall|h: i64, k: int|
        #![trigger b[h][k]]
        b.contains_key(h) && 0 <= k < b[h].len() implies b[h][k] < g.len() by {
        if a.contains_key(h) && k < a[h].len() {
            assert(a[h][k] < g0.len());
            assert(b[h][k] == a[h][k]);
        }
    }
    assert forall|x: int| #![trigger g[x]] 0 <= x < g.len() implies {
        let h = pattern_key(g[x].pattern.stop_ids@) as i64;
        b.contains_key(h) && b[h].contains(x as usize)
    } by {
        let h = pattern_key(g[x].pattern.stop_ids@) as i64;
        if x < g0.len() {
            assert(g.drop_last()[x] == g0[x]);
            let k = choose|k: int| 0 <= k < a[h].len() && a[h][k] == x as usize;
            assert(b[h][k] == x as usize);
        } else {
            assert(b[h][b[h].len() - 1] == at);
        }
    }
}

// What the groups of trips are.

proof fn lemma_trips_with(trips: Seq<TripStops>, n: int, p: Pattern)
    requires
        0 <= n <= trips.len() <= usize::MAX,
    ensures
        forall|t: usize| #[trigger]
            trips_with(trips, n, p).contains(t) <==> t < n && follows_pattern(trips[t as int])
                && pattern_of(trips[t as int]) == p,
        forall|i: int, j: int|
            #![trigger trips_with(trips, n, p)[i], trips_with(trips, n, p)[j]]
            0 <= i < j < trips_with(trips, n, p).len() ==> trips_with(trips, n, p)[i] < trips_with(
                trips,
                n,
                p,
            )[j],
    decreases n,
{
    if n > 0 {
        lemma_trips_with(trips, n - 1, p);
        let rest = trips_with(trips, n - 1, p);
        let all = trips_with(trips, n, p);
        assert forall|t: usize| #[trigger] all.contains(t) <==> t < n && follows_pattern(
            trips[t as int],
        ) && pattern_of(trips[t as int]) == p by {
            if all.contains(t) {
                let i = choose|i: int| 0 <= i < all.len() && all[i] == t;
                if i < rest.len() {
                    assert(rest[i] == t);
                    assert(rest.contains(t));
                }
            }
            if rest.contains(t) {
                let i = choose|i: int| 0 <= i < rest.len() && rest[i] == t;
                assert(all[i] == t);
            }
            if t == n - 1 && follows_pattern(trips[n - 1]) && pattern_of(trips[n - 1]) == p {
                assert(all[rest.len() as int] == t);
            }
        }
        assert forall|i: int, j: int|
            #![trigger all[i], all[j]]
            0 <= i < j < all.len() implies all[i] < all[j] by {
            assert(i < rest.len());
            assert(rest.contains(rest[i]));
            if j < rest.len() {
                assert(rest[i] < rest[j]);
            }
        }
    }
}

proof fn lemma_patterns_by_first_trip(trips: Seq<TripStops>, n: int)
    requires
        0 <= n <= trips.len() <= usize::MAX,
    ensures
        forall|k: int|
            #![trigger patterns_met(trips, n)[k]]
            0 <= k < patterns_met(trips, n).len() ==> trips_with(
                trips,
                n,
                patterns_met(trips, n)[k],
            ).len() > 0,
        forall|k: int, l: int|
            #![trigger patterns_met(trips, n)[k], patterns_met(trips, n)[l]]
            0 <= k < l < patterns_met(trips, n).len() ==> trips_with(
                trips,
                n,
                patterns_met(trips, n)[k],
            )[0] < trips_with(trips, n, patterns_met(trips, n)[l])[0],
        forall|t: int|
            #![trigger trips[t]]
            0 <= t < n && follows_pattern(trips[t]) ==> patterns_met(trips, n).contains(
                pattern_of(trips[t]),
            ),
    decreases n,
{
    if n > 0 {
        lemma_patterns_by_first_trip(trips, n - 1);
        let rest = patterns_met(trips, n - 1);
        let all = patterns_met(trips, n);
        let new = pattern_of(trips[n - 1]);
        let adds = follows_pattern(trips[n - 1]) && !rest.contains(new);
        if adds {
            lemma_trips_of_new(trips, n - 1, new);
        }
        assert forall|k: int| #![trigger all[k]] 0 <= k < all.len() implies trips_with(
            trips,
            n,
            all[k],
        ).len() > 0 && (k < rest.len() ==> trips_with(trips, n, all[k])[0] == trips_with(
            trips,
            n - 1,
            rest[k],
        )[0]) && (k == rest.len() ==> trips_with(trips, n, all[k])[0] == n - 1) by {
            if k < rest.len() {
                assert(all[k] == rest[k]);
                assert(trips_with(trips, n - 1, rest[k]).len() > 0);
            }
        }
        assert forall|k: int, l: int|
            #![trigger all[k], all[l]]
            0 <= k < l < all.len() implies trips_with(trips, n, all[k])[0] < trips_with(
            trips,
            n,
            all[l],
        )[0] by {
            lemma_trips_with(trips, n - 1, rest[k]);
            assert(trips_with(trips, n - 1, rest[k]).len() > 0);
            assert(trips_with(trips, n - 1, rest[k]).contains(trips_with(trips, n - 1, rest[k])[0]));
            if l < rest.len() {
                assert(trips_with(trips, n - 1, rest[k])[0] < trips_with(trips, n - 1, rest[l])[0]);
            }
        }
        assert forall|t: int| #![trigger trips[t]] 0 <= t < n && follows_pattern(
            trips[t],
        ) implies all.contains(pattern_of(trips[t])) by {
            if t < n - 1 || !adds {
                let p = pattern_of(trips[t]);
                assert(rest.contains(p));
                let k = choose|k: int| 0 <= k < rest.len() && rest[k] == p;
                assert(all[k] == p);
            } else {
                assert(all[rest.len() as int] == new);
            }
        }
    }
}

/// Whether a trip is in a group.
pub open spec fn is_in_group(groups: Seq<PatternGroup>, g: int, t: usize) -> bool {
    0 <= g < groups.len() && groups[g].trips@.contains(t)
}

/// A trip is in a group if and only if it has a type of route and stops. Trips in one group have the same stops
/// in the same order and the same type of route, those in different groups have not. Each group holds its trips
/// in their order, and the groups come in the order of their first trips.
pub proof fn lemma_groups(groups: Seq<PatternGroup>, trips: Seq<TripStops>)
    requires
        trips.len() <= usize::MAX,
        is_grouped(groups, trips, trips.len() as int),
    ensures
        forall|t: usize|
            (exists|g: int| is_in_group(groups, g, t)) <==> t < trips.len() && (
            #[trigger] trips[t as int]).route_type is Some && trips[t as int].times@.len() > 0,
        forall|g: int, h: int, t: usize, u: usize|
            #[trigger] is_in_group(groups, g, t) && #[trigger] is_in_group(groups, h, u) ==> (g == h
                <==> stop_list(trips[t as int].times@) == stop_list(trips[u as int].times@)
                && trips[t as int].route_type == trips[u as int].route_type),
        forall|g: int, i: int, j: int|
            #![trigger groups[g].trips@[i], groups[g].trips@[j]]
            0 <= g < groups.len() && 0 <= i < j < groups[g].trips@.len() ==> groups[g].trips@[i]
                < groups[g].trips@[j],
        forall|g: int, h: int|
            #![trigger groups[g], groups[h]]
            0 <= g < h < groups.len() ==> groups[g].trips@.len() > 0 && groups[h].trips@.len() > 0
                && groups[g].trips@[0] < groups[h].trips@[0],
{
    let n = trips.len() as int;
    let met = patterns_met(trips, n);
    lemma_patterns_by_first_trip(trips, n);
    lemma_met_distinct(trips, n);
    assert forall|g: int, t: usize| #[trigger] is_in_group(groups, g, t) implies t < trips.len()
        && follows_pattern(trips[t as int]) && pattern_of(trips[t as int]) == met[g] by {
        lemma_trips_with(trips, n, met[g]);
        assert(groups[g].trips@ == trips_with(trips, n, met[g]));
    }
    assert forall|t: usize|
        (exists|g: int| is_in_group(groups, g, t)) <==> t < trips.len() && (
        #[trigger] trips[t as int]).route_type is Some && trips[t as int].times@.len() > 0 by {
        if t < trips.len() && follows_pattern(trips[t as int]) {
            let p = pattern_of(trips[t as int]);
            assert(met.contains(p));
            let g = choose|g: int| 0 <= g < met.len() && met[g] == p;
            lemma_trips_with(trips, n, p);
            assert(groups[g].trips@ == trips_with(trips, n, met[g]));
            assert(is_in_group(groups, g, t));
        }
    }
    assert forall|g: int, i: int, j: int|
        #![trigger groups[g].trips@[i], groups[g].trips@[j]]
        0 <= g < groups.len() && 0 <= i < j < groups[g].trips@.len() implies groups[g].trips@[i]
        < groups[g].trips@[j] by {
        lemma_trips_with(trips, n, met[g]);
        assert(groups[g].trips@ == trips_with(trips, n, met[g]));
    }
    assert forall|g: int, h: int|
        #![trigger groups[g], groups[h]]
        0 <= g < h < groups.len() implies groups[g].trips@.len() > 0 && groups[h].trips@.len() > 0
        && groups[g].trips@[0] < groups[h].trips@[0] by {
        assert(met[g] != met[h]);
    }
}

} // verus!
