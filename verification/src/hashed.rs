//! The hash tables of the `ahash` crate.
//!
//! Verus cannot look into these tables. Each table type that the library uses has a name for its
//! contents, and the functions below state over that name what the table's methods do.

use crate::router::types::{EdgeCand, EdgeCandGroup, EdgeHop, EdgeListHops};
use ahash::{AHashMap, AHashSet};
use vstd::prelude::*;

verus! {

/// Declares `ahash::AHashMap`.
#[verifier::external_type_specification]
#[verifier::external_body]
#[verifier::reject_recursive_types(K)]
#[verifier::reject_recursive_types(V)]
#[verifier::reject_recursive_types(S)]
pub struct ExAHashMap<K, V, S>(AHashMap<K, V, S>);

/// Declares `ahash::AHashSet`.
#[verifier::external_type_specification]
#[verifier::external_body]
#[verifier::reject_recursive_types(T)]
#[verifier::reject_recursive_types(S)]
pub struct ExAHashSet<T, S>(AHashSet<T, S>);

/// Declares the hasher state that `ahash` tables carry.
#[verifier::external_type_specification]
#[verifier::external_body]
pub struct ExRandomState(ahash::RandomState);

/// What a graph search knows of a node: the cost of the best way found so far, the node where
/// that way began, and the node and edge by which it arrives (none where it begins).
#[derive(Clone, Copy, Debug, PartialEq, Eq)]
pub struct Label {
    pub g: u128,
    pub origin: usize,
    pub via: Option<(usize, usize)>,
}

/// A search's labels, keyed by node.
pub type Labels = AHashMap<usize, Label>;

/// The contents of a table of labels.
pub uninterp spec fn labels_of(m: Labels) -> Map<usize, Label>;

/// `AHashMap::new`: an empty table.
#[verifier::external_body]
pub(crate) fn labels_new() -> (m: Labels)
    ensures
        labels_of(m) == (Map::<usize, Label>::empty()),
{
    AHashMap::new()
}

/// `AHashMap::get`: the value stored under the key, if there is one.
#[verifier::external_body]
pub(crate) fn labels_get(m: &Labels, k: usize) -> (r: Option<Label>)
    ensures
        r == (if labels_of(*m).contains_key(k) { Some(labels_of(*m)[k]) } else { None }),
{
    m.get(&k).copied()
}

/// `AHashMap::insert`: stores the value under the key, in place of a value stored there before.
#[verifier::external_body]
pub(crate) fn labels_insert(m: &mut Labels, k: usize, v: Label)
    ensures
        labels_of(*final(m)) == labels_of(*old(m)).insert(k, v),
{
    m.insert(k, v);
}

/// `AHashMap::clear`: empties the table.
#[verifier::external_body]
pub(crate) fn labels_clear(m: &mut Labels)
    ensures
        labels_of(*final(m)) == (Map::<usize, Label>::empty()),
{
    m.clear();
}

/// `AHashMap::capacity`: for how many entries the table has room. This rests on what has been
/// allocated, so nothing is said of it but that the present entries have room.
#[verifier::external_body]
pub(crate) fn labels_capacity(m: &Labels) -> (r: usize)
    ensures
        labels_of(*m).len() <= r,
{
    m.capacity()
}

/// Lists of numbers, each under a hash.
pub type Buckets = AHashMap<u64, Vec<u32>>;

/// The contents of a table of buckets.
pub uninterp spec fn buckets_of(m: Buckets) -> Map<u64, Seq<u32>>;

/// `AHashMap::new`: an empty table.
#[verifier::external_body]
pub(crate) fn buckets_new() -> (m: Buckets)
    ensures
        buckets_of(m) == (Map::<u64, Seq<u32>>::empty()),
{
    AHashMap::new()
}

/// `AHashMap::get`: the list stored under the hash, if there is one.
#[verifier::external_body]
pub(crate) fn buckets_get(m: &Buckets, hash: u64) -> (r: Option<&Vec<u32>>)
    ensures
        match r {
            Some(ids) => buckets_of(*m).contains_key(hash) && ids@ == buckets_of(*m)[hash],
            None => !buckets_of(*m).contains_key(hash),
        },
{
    m.get(&hash)
}

/// `AHashMap::entry` with `or_default`: the list stored under the hash, an empty one if there was
/// none, to which the number is appended.
#[verifier::external_body]
pub(crate) fn buckets_push(m: &mut Buckets, hash: u64, id: u32)
    ensures
        buckets_of(*final(m)) == buckets_of(*old(m)).insert(
            hash,
            (if buckets_of(*old(m)).contains_key(hash) {
                buckets_of(*old(m))[hash]
            } else {
                Seq::<u32>::empty()
            }).push(id),
        ),
{
    m.entry(hash).or_default().push(id);
}

/// A set of node or edge indices.
pub type IndexSet = AHashSet<usize>;

/// The contents of a set of indices.
pub uninterp spec fn indices_of(s: IndexSet) -> Set<usize>;

/// `AHashSet::new`: an empty set.
#[verifier::external_body]
pub(crate) fn indices_new() -> (s: IndexSet)
    ensures
        indices_of(s) == Set::<usize>::empty(),
{
    AHashSet::new()
}

/// `AHashSet::insert`: adds the index, and says whether it was new.
#[verifier::external_body]
pub(crate) fn indices_insert(s: &mut IndexSet, i: usize) -> (new: bool)
    ensures
        indices_of(*final(s)) == indices_of(*old(s)).insert(i),
        new == !indices_of(*old(s)).contains(i),
{
    s.insert(i)
}

/// `AHashSet::remove`: takes the index out, and says whether it was there.
#[verifier::external_body]
pub(crate) fn indices_remove(s: &mut IndexSet, i: usize) -> (there: bool)
    ensures
        indices_of(*final(s)) == indices_of(*old(s)).remove(i),
        there == indices_of(*old(s)).contains(i),
{
    s.remove(&i)
}

/// `AHashSet::contains`: whether the index is in the set.
#[verifier::external_body]
pub(crate) fn indices_contains(s: &IndexSet, i: usize) -> (r: bool)
    ensures
        r == indices_of(*s).contains(i),
{
    s.contains(&i)
}

/// Numbers, each under a pair of edges.
pub type HopTable = AHashMap<(usize, usize), i64>;

/// The contents of a table of hops.
pub uninterp spec fn hops_of(m: HopTable) -> Map<(usize, usize), i64>;

/// `AHashMap::new`: an empty table.
#[verifier::external_body]
pub(crate) fn hops_new() -> (m: HopTable)
    ensures
        hops_of(m) == (Map::<(usize, usize), i64>::empty()),
{
    AHashMap::new()
}

/// `AHashMap::get`: the number stored under the pair, if there is one.
#[verifier::external_body]
pub(crate) fn hops_get(m: &HopTable, k: (usize, usize)) -> (r: Option<i64>)
    ensures
        r == (if hops_of(*m).contains_key(k) { Some(hops_of(*m)[k]) } else { None }),
{
    m.get(&k).copied()
}

/// `AHashMap::insert`: stores the number under the pair, in place of one stored there before.
#[verifier::external_body]
pub(crate) fn hops_insert(m: &mut HopTable, k: (usize, usize), v: i64)
    ensures
        hops_of(*final(m)) == hops_of(*old(m)).insert(k, v),
{
    m.insert(k, v);
}

/// Positions, each under a name.
pub type NameIndex = AHashMap<String, usize>;

/// The contents of a table of names.
pub uninterp spec fn names_of(m: NameIndex) -> Map<Seq<char>, usize>;

/// `AHashMap::new`: an empty table.
#[verifier::external_body]
pub(crate) fn names_new() -> (m: NameIndex)
    ensures
        names_of(m) == (Map::<Seq<char>, usize>::empty()),
{
    AHashMap::new()
}

/// `AHashMap::get`: the position stored under the name, if there is one.
#[verifier::external_body]
pub(crate) fn names_get(m: &NameIndex, k: &str) -> (r: Option<usize>)
    ensures
        r == (if names_of(*m).contains_key(k@) { Some(names_of(*m)[k@]) } else { None }),
{
    m.get(k).copied()
}

/// `AHashMap::insert`: stores the position under the name, in place of one stored there before.
#[verifier::external_body]
pub(crate) fn names_insert(m: &mut NameIndex, k: String, v: usize)
    ensures
        names_of(*final(m)) == names_of(*old(m)).insert(k@, v),
{
    m.insert(k, v);
}

/// `AHashMap::is_empty`: whether no name is stored.
#[verifier::external_body]
pub(crate) fn names_is_empty(m: &NameIndex) -> (r: bool)
    ensures
        r == (names_of(*m) == Map::<Seq<char>, usize>::empty()),
{
    m.is_empty()
}

/// Positions, each under an index.
pub type SlotIndex = AHashMap<usize, usize>;

/// The contents of a table of slots.
pub uninterp spec fn slots_of(m: SlotIndex) -> Map<usize, usize>;

/// `AHashMap::new`: an empty table.
#[verifier::external_body]
pub(crate) fn slots_new() -> (m: SlotIndex)
    ensures
        slots_of(m) == (Map::<usize, usize>::empty()),
{
    AHashMap::new()
}

/// `AHashMap::get`: the position stored under the index, if there is one.
#[verifier::external_body]
pub(crate) fn slots_get(m: &SlotIndex, k: usize) -> (r: Option<usize>)
    ensures
        r == (if slots_of(*m).contains_key(k) { Some(slots_of(*m)[k]) } else { None }),
{
    m.get(&k).copied()
}

/// `AHashMap::insert`: stores the position under the index, in place of one stored there before.
#[verifier::external_body]
pub(crate) fn slots_insert(m: &mut SlotIndex, k: usize, v: usize)
    ensures
        slots_of(*final(m)) == slots_of(*old(m)).insert(k, v),
{
    m.insert(k, v);
}

/// A set of identifiers of map objects.
pub type IdSet = AHashSet<i64>;

/// The contents of a set of identifiers.
pub uninterp spec fn ids_of(s: IdSet) -> Set<i64>;

/// `AHashSet::new`: an empty set.
#[verifier::external_body]
pub(crate) fn ids_new() -> (s: IdSet)
    ensures
        ids_of(s) == Set::<i64>::empty(),
{
    AHashSet::new()
}

/// `AHashSet::insert`: adds the identifier, and says whether it was new.
#[verifier::external_body]
pub(crate) fn ids_insert(s: &mut IdSet, id: i64) -> (new: bool)
    ensures
        ids_of(*final(s)) == ids_of(*old(s)).insert(id),
        new == !ids_of(*old(s)).contains(id),
{
    s.insert(id)
}

/// `AHashSet::contains`: whether the identifier is in the set.
#[verifier::external_body]
pub(crate) fn ids_contains(s: &IdSet, id: i64) -> (r: bool)
    ensures
        r == ids_of(*s).contains(id),
{
    s.contains(&id)
}

/// Indices, each under the identifier of a map object.
pub type IdIndex = AHashMap<i64, usize>;

/// The contents of an index by identifiers.
pub uninterp spec fn index_of(m: IdIndex) -> Map<i64, usize>;

/// `AHashMap::new`: an empty index.
#[verifier::external_body]
pub(crate) fn index_new() -> (m: IdIndex)
    ensures
        index_of(m) == (Map::<i64, usize>::empty()),
{
    AHashMap::new()
}

/// `AHashMap::get`: the index under the identifier.
#[verifier::external_body]
pub(crate) fn index_get(m: &IdIndex, id: i64) -> (r: Option<usize>)
    ensures
        r == (if index_of(*m).contains_key(id) {
            Some(index_of(*m)[id])
        } else {
            None
        }),
{
    m.get(&id).copied()
}

/// `AHashMap::insert`: puts the index under the identifier, in place of what was there.
#[verifier::external_body]
pub(crate) fn index_insert(m: &mut IdIndex, id: i64, value: usize)
    ensures
        index_of(*final(m)) == index_of(*old(m)).insert(id, value),
{
    m.insert(id, value);
}

/// Lists of numbers, each under the identifier of a map object.
pub type IdLists = AHashMap<i64, Vec<u32>>;

/// The contents of lists by identifiers.
pub uninterp spec fn lists_of(m: IdLists) -> Map<i64, Seq<u32>>;

/// `AHashMap::new`: no lists.
#[verifier::external_body]
pub(crate) fn lists_new() -> (m: IdLists)
    ensures
        lists_of(m) == (Map::<i64, Seq<u32>>::empty()),
{
    AHashMap::new()
}

/// `AHashMap::get`: the list under the identifier.
#[verifier::external_body]
pub(crate) fn lists_get(m: &IdLists, id: i64) -> (r: Option<&Vec<u32>>)
    ensures
        match r {
            Some(v) => lists_of(*m).contains_key(id) && v@ == lists_of(*m)[id],
            None => !lists_of(*m).contains_key(id),
        },
{
    m.get(&id)
}

/// `AHashMap::entry`, `Entry::or_default` and `Vec::push`: appends the number to the list under the
/// identifier, which is empty if there was none.
#[verifier::external_body]
pub(crate) fn lists_push(m: &mut IdLists, id: i64, x: u32)
    ensures
        lists_of(*final(m)) == lists_of(*old(m)).insert(
            id,
            (if lists_of(*old(m)).contains_key(id) {
                lists_of(*old(m))[id]
            } else {
                Seq::<u32>::empty()
            }).push(x),
        ),
{
    m.entry(id).or_default().push(x);
}

/// Lists of positions, each under a number.
pub type IdSlots = AHashMap<i64, Vec<usize>>;

/// The contents of a table of lists of positions.
pub uninterp spec fn slots_at(m: IdSlots) -> Map<i64, Seq<usize>>;

/// `AHashMap::new`: an empty table.
#[verifier::external_body]
pub(crate) fn id_slots_new() -> (m: IdSlots)
    ensures
        slots_at(m) == (Map::<i64, Seq<usize>>::empty()),
{
    AHashMap::new()
}

/// `AHashMap::get`: the list under the number.
#[verifier::external_body]
pub(crate) fn id_slots_get(m: &IdSlots, id: i64) -> (r: Option<&Vec<usize>>)
    ensures
        match r {
            Some(v) => slots_at(*m).contains_key(id) && v@ == slots_at(*m)[id],
            None => !slots_at(*m).contains_key(id),
        },
{
    m.get(&id)
}

/// `AHashMap::insert`: stores the list under the number, in place of the one that was there.
#[verifier::external_body]
pub(crate) fn id_slots_insert(m: &mut IdSlots, id: i64, v: Vec<usize>)
    ensures
        slots_at(*final(m)) == slots_at(*old(m)).insert(id, v@),
{
    m.insert(id, v);
}

/// `AHashMap::entry`, `Entry::or_default` and `Vec::push`: appends the position to the list under the
/// identifier, which is empty if there was none.
#[verifier::external_body]
pub(crate) fn id_slots_push(m: &mut IdSlots, id: i64, x: usize)
    ensures
        slots_at(*final(m)) == slots_at(*old(m)).insert(
            id,
            (if slots_at(*old(m)).contains_key(id) {
                slots_at(*old(m))[id]
            } else {
                Seq::<usize>::empty()
            }).push(x),
        ),
{
    m.entry(id).or_default().push(x);
}

/// A set of tiles, by their coordinates.
pub type TileSet = AHashSet<(i32, i32)>;

/// The contents of a set of tiles.
pub uninterp spec fn tiles_of(s: TileSet) -> Set<(i32, i32)>;

/// `AHashSet::new`: an empty set.
#[verifier::external_body]
pub(crate) fn tiles_new() -> (s: TileSet)
    ensures
        tiles_of(s) == Set::<(i32, i32)>::empty(),
{
    AHashSet::new()
}

/// `AHashSet::insert`: adds the tile, and says whether it was new.
#[verifier::external_body]
pub(crate) fn tiles_insert(s: &mut TileSet, t: (i32, i32)) -> (new: bool)
    ensures
        tiles_of(*final(s)) == tiles_of(*old(s)).insert(t),
        new == !tiles_of(*old(s)).contains(t),
{
    s.insert(t)
}

/// `AHashSet::contains`: whether the tile is in the set.
#[verifier::external_body]
pub(crate) fn tiles_contains(s: &TileSet, t: (i32, i32)) -> (r: bool)
    ensures
        r == tiles_of(*s).contains(t),
{
    s.contains(&t)
}

/// `AHashSet::into_iter`: the tiles, each once. Their order is left open.
#[verifier::external_body]
pub(crate) fn tiles_into_vec(s: TileSet) -> (r: Vec<(i32, i32)>)
    ensures
        r@.no_duplicates(),
        forall|t: (i32, i32)| #[trigger] r@.contains(t) <==> tiles_of(s).contains(t),
{
    s.into_iter().collect()
}

/// Coordinates, each pair under the identifier of a node.
pub type PointIndex = AHashMap<i64, (i32, i32)>;

/// The contents of an index of coordinates.
pub uninterp spec fn points_at(m: PointIndex) -> Map<i64, (i32, i32)>;

/// `AHashMap::new`: an empty index.
#[verifier::external_body]
pub(crate) fn points_new() -> (m: PointIndex)
    ensures
        points_at(m) == (Map::<i64, (i32, i32)>::empty()),
{
    AHashMap::new()
}

/// `AHashMap::get`: the coordinates under the identifier.
#[verifier::external_body]
pub(crate) fn points_get(m: &PointIndex, id: i64) -> (r: Option<(i32, i32)>)
    ensures
        r == (if points_at(*m).contains_key(id) {
            Some(points_at(*m)[id])
        } else {
            None
        }),
{
    m.get(&id).copied()
}

/// `AHashMap::insert`: puts the coordinates under the identifier, in place of what was there.
#[verifier::external_body]
pub(crate) fn points_insert(m: &mut PointIndex, id: i64, p: (i32, i32))
    ensures
        points_at(*final(m)) == points_at(*old(m)).insert(id, p),
{
    m.insert(id, p);
}

/// Flags, each under the identifier of a node.
pub type FlagIndex = AHashMap<i64, u8>;

/// The contents of an index of flags.
pub uninterp spec fn flags_at(m: FlagIndex) -> Map<i64, u8>;

/// `AHashMap::new`: an empty index.
#[verifier::external_body]
pub(crate) fn flags_new() -> (m: FlagIndex)
    ensures
        flags_at(m) == (Map::<i64, u8>::empty()),
{
    AHashMap::new()
}

/// `AHashMap::get`: the flags under the identifier.
#[verifier::external_body]
pub(crate) fn flags_get(m: &FlagIndex, id: i64) -> (r: Option<u8>)
    ensures
        r == (if flags_at(*m).contains_key(id) {
            Some(flags_at(*m)[id])
        } else {
            None
        }),
{
    m.get(&id).copied()
}

/// `AHashMap::insert`: puts the flags under the identifier, in place of what was there.
#[verifier::external_body]
pub(crate) fn flags_insert(m: &mut FlagIndex, id: i64, flags: u8)
    ensures
        flags_at(*final(m)) == flags_at(*old(m)).insert(id, flags),
{
    m.insert(id, flags);
}

/// Bytes, each list under the coordinates of a tile.
pub type TileBytes = AHashMap<(i32, i32), Vec<u8>>;

/// The contents of buffers by tiles.
pub uninterp spec fn bytes_at(m: TileBytes) -> Map<(i32, i32), Seq<u8>>;

/// `AHashMap::new`: no buffers.
#[verifier::external_body]
pub(crate) fn tile_bytes_new() -> (m: TileBytes)
    ensures
        bytes_at(m) == (Map::<(i32, i32), Seq<u8>>::empty()),
{
    AHashMap::new()
}

/// `AHashMap::remove`: takes the bytes of a tile out.
#[verifier::external_body]
pub(crate) fn tile_bytes_remove(m: &mut TileBytes, t: (i32, i32)) -> (r: Option<Vec<u8>>)
    ensures
        bytes_at(*final(m)) == bytes_at(*old(m)).remove(t),
        match r {
            Some(v) => bytes_at(*old(m)).contains_key(t) && v@ == bytes_at(*old(m))[t],
            None => !bytes_at(*old(m)).contains_key(t),
        },
{
    m.remove(&t)
}

/// `AHashMap::insert`: puts the bytes under the tile, in place of what was there.
#[verifier::external_body]
pub(crate) fn tile_bytes_insert(m: &mut TileBytes, t: (i32, i32), v: Vec<u8>)
    ensures
        bytes_at(*final(m)) == bytes_at(*old(m)).insert(t, v@),
{
    m.insert(t, v);
}

/// A set of names.
pub type NameSet = AHashSet<String>;

/// The contents of a set of names.
pub uninterp spec fn names_in(s: NameSet) -> Set<Seq<char>>;

/// `AHashSet::new`: an empty set.
#[verifier::external_body]
pub(crate) fn name_set_new() -> (s: NameSet)
    ensures
        names_in(s) == Set::<Seq<char>>::empty(),
{
    AHashSet::new()
}

/// `AHashSet::insert`: adds the name.
#[verifier::external_body]
pub(crate) fn name_set_insert(s: &mut NameSet, name: String)
    ensures
        names_in(*final(s)) == names_in(*old(s)).insert(name@),
{
    s.insert(name);
}

/// `AHashSet::contains`: whether the name is in the set.
#[verifier::external_body]
pub(crate) fn name_set_contains(s: &NameSet, name: &str) -> (r: bool)
    ensures
        r == names_in(*s).contains(name@),
{
    s.contains(name)
}

/// Positions, each under the number of a way and a direction.
pub type WayIndex = AHashMap<(i64, bool), usize>;

/// The contents of a table of ways.
pub uninterp spec fn ways_of(m: WayIndex) -> Map<(i64, bool), usize>;

/// `AHashMap::new`: an empty table.
#[verifier::external_body]
pub(crate) fn ways_new() -> (m: WayIndex)
    ensures
        ways_of(m) == (Map::<(i64, bool), usize>::empty()),
{
    AHashMap::new()
}

/// `AHashMap::get`: the position stored under the key, if there is one.
#[verifier::external_body]
pub(crate) fn ways_get(m: &WayIndex, k: (i64, bool)) -> (r: Option<usize>)
    ensures
        r == (if ways_of(*m).contains_key(k) { Some(ways_of(*m)[k]) } else { None }),
{
    m.get(&k).copied()
}

/// `AHashMap::insert`: stores the position under the key, in place of one stored there before.
#[verifier::external_body]
pub(crate) fn ways_insert(m: &mut WayIndex, k: (i64, bool), v: usize)
    ensures
        ways_of(*final(m)) == ways_of(*old(m)).insert(k, v),
{
    m.insert(k, v);
}

/// Indices, each under a pair of numbers.
pub type PosIndex = AHashMap<(i32, i32), usize>;

/// The contents of a table of positions.
pub uninterp spec fn spots_of(m: PosIndex) -> Map<(i32, i32), usize>;

/// `AHashMap::new`: an empty table.
#[verifier::external_body]
pub(crate) fn spots_new() -> (m: PosIndex)
    ensures
        spots_of(m) == (Map::<(i32, i32), usize>::empty()),
{
    AHashMap::new()
}

/// `AHashMap::get`: the index stored under the pair, if there is one.
#[verifier::external_body]
pub(crate) fn spots_get(m: &PosIndex, k: (i32, i32)) -> (r: Option<usize>)
    ensures
        r == (if spots_of(*m).contains_key(k) { Some(spots_of(*m)[k]) } else { None }),
{
    m.get(&k).copied()
}

/// `AHashMap::insert`: stores the index under the pair, in place of one stored there before.
#[verifier::external_body]
pub(crate) fn spots_insert(m: &mut PosIndex, k: (i32, i32), v: usize)
    ensures
        spots_of(*final(m)) == spots_of(*old(m)).insert(k, v),
{
    m.insert(k, v);
}

/// Texts, each under a name.
pub type TextMap = AHashMap<String, String>;

/// The contents of a table of texts.
pub uninterp spec fn texts_of(m: TextMap) -> Map<Seq<char>, Seq<char>>;

/// `AHashMap::new`: an empty table.
#[verifier::external_body]
pub(crate) fn texts_new() -> (m: TextMap)
    ensures
        texts_of(m) == (Map::<Seq<char>, Seq<char>>::empty()),
{
    AHashMap::new()
}

/// `AHashMap::insert`: stores the text under the name, in place of one stored there before.
#[verifier::external_body]
pub(crate) fn texts_insert(m: &mut TextMap, k: String, v: String)
    ensures
        texts_of(*final(m)) == texts_of(*old(m)).insert(k@, v@),
{
    m.insert(k, v);
}

/// Names of trips, in a list for each node.
pub type TripLists = AHashMap<usize, Vec<String>>;

/// The contents of a table of trips.
pub uninterp spec fn trips_in(m: TripLists) -> Map<usize, Seq<Seq<char>>>;

/// `AHashMap::new`: an empty table.
#[verifier::external_body]
pub(crate) fn trips_new() -> (m: TripLists)
    ensures
        trips_in(m) == (Map::<usize, Seq<Seq<char>>>::empty()),
{
    AHashMap::new()
}

/// `AHashMap::entry` with `or_default`: the list stored under the node, an empty one if there was
/// none, to which the name is appended.
#[verifier::external_body]
pub(crate) fn trips_push(m: &mut TripLists, k: usize, id: String)
    ensures
        trips_in(*final(m)) == trips_in(*old(m)).insert(
            k,
            (if trips_in(*old(m)).contains_key(k) {
                trips_in(*old(m))[k]
            } else {
                Seq::<Seq<char>>::empty()
            }).push(id@),
        ),
{
    m.entry(k).or_default().push(id);
}

/// `AHashMap::keys`, collected: the nodes under which lists are stored, each once. Nothing is said of
/// their order.
#[verifier::external_body]
pub(crate) fn trips_keys(m: &TripLists) -> (r: Vec<usize>)
    ensures
        r@.no_duplicates(),
        forall|k: usize| #[trigger] r@.contains(k) <==> trips_in(*m).contains_key(k),
{
    m.keys().copied().collect()
}

/// Candidates, in a group for each node.
pub type GroupMap = AHashMap<usize, EdgeCandGroup>;

/// The contents of a table of candidates.
pub uninterp spec fn groups_in(m: GroupMap) -> Map<usize, Seq<EdgeCand>>;

/// `AHashMap::new`: an empty table.
#[verifier::external_body]
pub(crate) fn groups_new() -> (m: GroupMap)
    ensures
        groups_in(m) == (Map::<usize, Seq<EdgeCand>>::empty()),
{
    AHashMap::new()
}

/// `AHashMap::get`: the group stored under the node, if there is one.
#[verifier::external_body]
pub(crate) fn groups_get(m: &GroupMap, k: usize) -> (r: Option<&EdgeCandGroup>)
    ensures
        match r {
            Some(group) => groups_in(*m).contains_key(k) && group@ == groups_in(*m)[k],
            None => !groups_in(*m).contains_key(k),
        },
{
    m.get(&k)
}

/// `AHashMap::insert`: stores the group under the node, in place of one stored there before.
#[verifier::external_body]
pub(crate) fn groups_insert(m: &mut GroupMap, k: usize, v: EdgeCandGroup)
    ensures
        groups_in(*final(m)) == groups_in(*old(m)).insert(k, v@),
{
    m.insert(k, v);
}

/// Hops, in a list for each node.
pub type RouteMap = AHashMap<usize, EdgeListHops>;

/// The contents of a table of hops.
pub uninterp spec fn routes_in(m: RouteMap) -> Map<usize, Seq<EdgeHop>>;

/// `AHashMap::new`: an empty table.
#[verifier::external_body]
pub(crate) fn routes_new() -> (m: RouteMap)
    ensures
        routes_in(m) == (Map::<usize, Seq<EdgeHop>>::empty()),
{
    AHashMap::new()
}

/// `AHashMap::insert`: stores the hops under the node, in place of those stored there before.
#[verifier::external_body]
pub(crate) fn routes_insert(m: &mut RouteMap, k: usize, v: EdgeListHops)
    ensures
        routes_in(*final(m)) == routes_in(*old(m)).insert(k, v@),
{
    m.insert(k, v);
}

/// `AHashMap::into_iter`, of which the first entry is taken: an entry of the table, if there is any.
/// Nothing is said of which one.
#[verifier::external_body]
pub(crate) fn routes_next(m: RouteMap) -> (r: Option<(usize, EdgeListHops)>)
    ensures
        match r {
            Some((k, v)) => routes_in(m).contains_key(k) && v@ == routes_in(m)[k],
            None => routes_in(m) == Map::<usize, Seq<EdgeHop>>::empty(),
        },
{
    m.into_iter().next()
}

} // verus!
