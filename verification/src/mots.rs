//! Modes of transport and the route types that stand for them.

use crate::hashed::{indices_insert, indices_new, indices_of, IndexSet};
use crate::text::{lowercase_of, split_on, split_trimmed, str_eq, to_lowercase, trimmed};
use vstd::prelude::*;

verus! {

/// A mode of transport.
#[derive(Debug, Clone, Copy, PartialEq, Eq, Hash, Structural)]
pub enum MotCategory {
    Tram,
    Subway,
    Rail,
    Bus,
    Ferry,
    CableCar,
    Gondola,
    Funicular,
    Coach,
    Trolleybus,
    Monorail,
    Air,
    Other,
}

/// The type of a route as a feed gives it.
#[derive(Debug, Clone, Copy, PartialEq, Eq, Hash, Structural)]
pub enum RouteType {
    Tramway,
    Subway,
    Rail,
    Bus,
    Ferry,
    CableCar,
    Gondola,
    Funicular,
    Coach,
    Air,
    Taxi,
    Other(i16),
}

/// The mode that a name in lower case stands for.
pub open spec fn named_category(name: Seq<char>) -> Option<MotCategory> {
    if name == "tram"@ || name == "streetcar"@ || name == "light_rail"@ || name == "lightrail"@ || name == "light-rail"@ {
        Some(MotCategory::Tram)
    } else if name == "subway"@ || name == "metro"@ {
        Some(MotCategory::Subway)
    } else if name == "rail"@ || name == "train"@ {
        Some(MotCategory::Rail)
    } else if name == "bus"@ {
        Some(MotCategory::Bus)
    } else if name == "ferry"@ || name == "boat"@ || name == "ship"@ {
        Some(MotCategory::Ferry)
    } else if name == "cablecar"@ || name == "cable_car"@ || name == "cable-car"@ {
        Some(MotCategory::CableCar)
    } else if name == "gondola"@ {
        Some(MotCategory::Gondola)
    } else if name == "funicular"@ {
        Some(MotCategory::Funicular)
    } else if name == "coach"@ {
        Some(MotCategory::Coach)
    } else if name == "trolley"@ || name == "trolleybus"@ || name == "trolley-bus"@ {
        Some(MotCategory::Trolleybus)
    } else if name == "monorail"@ || name == "mono-rail"@ {
        Some(MotCategory::Monorail)
    } else if name == "air"@ {
        Some(MotCategory::Air)
    } else {
        None
    }
}

/// The mode that a name in lower case stands for.
pub fn category_named(name: &str) -> (r: Option<MotCategory>)
    ensures
        r == named_category(name@),
{
    if str_eq(name, "tram") || str_eq(name, "streetcar") || str_eq(name, "light_rail") || str_eq(name, "lightrail") || str_eq(name, "light-rail") {
        Some(MotCategory::Tram)
    } else if str_eq(name, "subway") || str_eq(name, "metro") {
        Some(MotCategory::Subway)
    } else if str_eq(name, "rail") || str_eq(name, "train") {
        Some(MotCategory::Rail)
    } else if str_eq(name, "bus") {
        Some(MotCategory::Bus)
    } else if str_eq(name, "ferry") || str_eq(name, "boat") || str_eq(name, "ship") {
        Some(MotCategory::Ferry)
    } else if str_eq(name, "cablecar") || str_eq(name, "cable_car") || str_eq(name, "cable-car") {
        Some(MotCategory::CableCar)
    } else if str_eq(name, "gondola") {
        Some(MotCategory::Gondola)
    } else if str_eq(name, "funicular") {
        Some(MotCategory::Funicular)
    } else if str_eq(name, "coach") {
        Some(MotCategory::Coach)
    } else if str_eq(name, "trolley") || str_eq(name, "trolleybus") || str_eq(name, "trolley-bus") {
        Some(MotCategory::Trolleybus)
    } else if str_eq(name, "monorail") || str_eq(name, "mono-rail") {
        Some(MotCategory::Monorail)
    } else if str_eq(name, "air") {
        Some(MotCategory::Air)
    } else {
        None
    }
}

/// What is said of a name that stands for no mode.
pub open spec fn unknown_category(name: Seq<char>) -> Seq<char> {
    "Unknown MOT category: "@ + name
}

impl MotCategory {
    /// The position of a mode in the list of modes.
    pub open spec fn position(self) -> usize {
        match self {
            MotCategory::Tram => 0,
            MotCategory::Subway => 1,
            MotCategory::Rail => 2,
            MotCategory::Bus => 3,
            MotCategory::Ferry => 4,
            MotCategory::CableCar => 5,
            MotCategory::Gondola => 6,
            MotCategory::Funicular => 7,
            MotCategory::Coach => 8,
            MotCategory::Trolleybus => 9,
            MotCategory::Monorail => 10,
            MotCategory::Air => 11,
            MotCategory::Other => 12,
        }
    }

    /// The number by which a set of modes holds a mode: its position in the list of modes.
    pub fn number(self) -> (r: usize)
        ensures
            r == self.position(),
    {
        match self {
            MotCategory::Tram => 0,
            MotCategory::Subway => 1,
            MotCategory::Rail => 2,
            MotCategory::Bus => 3,
            MotCategory::Ferry => 4,
            MotCategory::CableCar => 5,
            MotCategory::Gondola => 6,
            MotCategory::Funicular => 7,
            MotCategory::Coach => 8,
            MotCategory::Trolleybus => 9,
            MotCategory::Monorail => 10,
            MotCategory::Air => 11,
            MotCategory::Other => 12,
        }
    }

    /// The mode that a name stands for, whatever the case of its letters.
    pub fn from_str(s: &str) -> (r: Result<Self, String>)
        ensures
            match r {
                Ok(c) => named_category(lowercase_of(s@)) == Some(c),
                Err(e) => named_category(lowercase_of(s@)) is None && e@ == unknown_category(
                    lowercase_of(s@),
                ),
            },
    {
        let lower = to_lowercase(s);
        match category_named(lower.as_str()) {
            Some(c) => Ok(c),
            None => Err("Unknown MOT category: ".to_owned().concat(lower.as_str())),
        }
    }
}

/// Different modes have different numbers.
pub proof fn lemma_position_injective(a: MotCategory, b: MotCategory)
    requires
        a.position() == b.position(),
    ensures
        a == b,
{
}

/// The names in a list of modes.
pub open spec fn mode_name(s: Seq<char>, i: int) -> Seq<char> {
    trimmed(split_on(s, ',')[i])
}

/// What a name in a list of modes stands for.
pub open spec fn listed(s: Seq<char>, i: int) -> Option<MotCategory> {
    named_category(lowercase_of(mode_name(s, i)))
}

/// Whether a place in a list of modes names none, though it is not empty.
pub open spec fn bad_name(s: Seq<char>, i: int) -> bool {
    mode_name(s, i).len() > 0 && listed(s, i) is None
}

/// Whether one of the first `n` places in a list of modes names the mode with this number.
pub open spec fn names_mode(s: Seq<char>, n: int, number: usize) -> bool {
    exists|i: int|
        0 <= i < n && #[trigger] mode_name(s, i).len() > 0 && listed(s, i) is Some && listed(
            s,
            i,
        )->0.position() == number
}

/// The modes in a list with commas, by their numbers; `all` stands for every mode. Empty places count
/// for nothing; the first name that stands for no mode is an error.
pub fn get_categories_from_string(s: &str) -> (r: Result<IndexSet, String>)
    ensures
        match r {
            Ok(set) => if s@ == "all"@ {
                forall|n: usize| #[trigger] indices_of(set).contains(n) <==> n <= 12
            } else {
                &&& forall|i: int| 0 <= i < split_on(s@, ',').len() ==> !#[trigger] bad_name(s@, i)
                &&& forall|n: usize| #[trigger]
                    indices_of(set).contains(n) <==> names_mode(
                        s@,
                        split_on(s@, ',').len() as int,
                        n,
                    )
            },
            Err(e) => s@ != "all"@ && exists|i: int|
                {
                    &&& 0 <= i < split_on(s@, ',').len()
                    &&& #[trigger] bad_name(s@, i)
                    &&& forall|j: int| 0 <= j < i ==> !#[trigger] bad_name(s@, j)
                    &&& e@ == unknown_category(lowercase_of(mode_name(s@, i)))
                },
        },
{
    let mut set = indices_new();
    if str_eq(s, "all") {
        let mut k: usize = 0;
        while k <= 12
            invariant
                k <= 13,
                forall|n: usize| #[trigger] indices_of(set).contains(n) <==> n < k,
            decreases 13 - k,
        {
            indices_insert(&mut set, k);
            k = k + 1;
        }
        return Ok(set);
    }
    let parts = split_trimmed(s, ',');
    let mut i: usize = 0;
    while i < parts.len()
        invariant
            s@ != "all"@,
            i <= parts@.len(),
            parts@.len() == split_on(s@, ',').len(),
            forall|k: int|
                #![trigger parts@[k]]
                0 <= k < parts@.len() ==> parts@[k]@ == trimmed(split_on(s@, ',')[k]),
            forall|j: int| 0 <= j < i ==> !#[trigger] bad_name(s@, j),
            forall|n: usize| #[trigger]
                indices_of(set).contains(n) <==> names_mode(s@, i as int, n),
        decreases parts@.len() - i,
    {
        let part = parts[i];
        assert(part@ == mode_name(s@, i as int));
        let ghost before = indices_of(set);
        if part.unicode_len() > 0 {
            match MotCategory::from_str(part) {
                Ok(c) => {
                    indices_insert(&mut set, c.number());
                },
                Err(e) => {
                    assert(bad_name(s@, i as int));
                    return Err(e);
                },
            }
        }
        proof {
            assert(!bad_name(s@, i as int));
            assert forall|n: usize| #[trigger] indices_of(set).contains(n) <==> names_mode(
                s@,
                i + 1,
                n,
            ) by {
                if names_mode(s@, i as int, n) {
                    let k = choose|k: int|
                        0 <= k < i && #[trigger] mode_name(s@, k).len() > 0 && listed(s@, k) is Some
                            && listed(s@, k)->0.position() == n;
                    assert(mode_name(s@, k).len() > 0);
                }
                if names_mode(s@, i + 1, n) && !names_mode(s@, i as int, n) {
                    let k = choose|k: int|
                        0 <= k < i + 1 && #[trigger] mode_name(s@, k).len() > 0 && listed(s@, k)
                            is Some && listed(s@, k)->0.position() == n;
                    assert(k == i);
                }
                if mode_name(s@, i as int).len() > 0 && listed(s@, i as int) is Some && listed(
                    s@,
                    i as int,
                )->0.position() == n {
                    assert(mode_name(s@, i as int).len() > 0);
                }
                assert(before.contains(n) ==> indices_of(set).contains(n));
            }
        }
        i = i + 1;
    }
    Ok(set)
}

/// The mode that an extended route type stands for.
pub open spec fn extended_category(t: int) -> MotCategory {
    if t == 116 {
        MotCategory::Funicular
    } else if t == 405 {
        MotCategory::Monorail
    } else if t == 2 || (100 <= t <= 117) || t == 300 || t == 1503 || t == 1504 {
        MotCategory::Rail
    } else if (700 <= t <= 717) || t == 1500 || t == 1501 || (1505 <= t <= 1507) {
        MotCategory::Bus
    } else if t == 1 || (400 <= t <= 404) || t == 500 || t == 600 {
        MotCategory::Subway
    } else if t == 0 || (900 <= t <= 906) {
        MotCategory::Tram
    } else if t == 4 || (1000 <= t <= 1021) || t == 1200 || t == 1502 {
        MotCategory::Ferry
    } else if t == 6 || t == 1300 || t == 1301 || t == 1304 || t == 1305 || t == 1306 || t == 1307 || (1101 <= t <= 1114) {
        MotCategory::Gondola
    } else if t == 7 || t == 1302 || t == 1303 || t == 1400 {
        MotCategory::Funicular
    } else if t == 5 {
        MotCategory::CableCar
    } else if t == 11 || t == 800 {
        MotCategory::Trolleybus
    } else if t == 12 {
        MotCategory::Monorail
    } else if 200 <= t <= 209 {
        MotCategory::Coach
    } else if t == 1100 {
        MotCategory::Air
    } else {
        MotCategory::Other
    }
}

/// The mode that an extended route type stands for.
pub fn map_extended_route_type(t: i32) -> (r: MotCategory)
    ensures
        r == extended_category(t as int),
{
    if t == 116 {
        MotCategory::Funicular
    } else if t == 405 {
        MotCategory::Monorail
    } else if t == 2 || (t >= 100 && t <= 117) || t == 300 || t == 1503 || t == 1504 {
        MotCategory::Rail
    } else if (t >= 700 && t <= 717) || t == 1500 || t == 1501 || (t >= 1505 && t <= 1507) {
        MotCategory::Bus
    } else if t == 1 || (t >= 400 && t <= 404) || t == 500 || t == 600 {
        MotCategory::Subway
    } else if t == 0 || (t >= 900 && t <= 906) {
        MotCategory::Tram
    } else if t == 4 || (t >= 1000 && t <= 1021) || t == 1200 || t == 1502 {
        MotCategory::Ferry
    } else if t == 6 || t == 1300 || t == 1301 || t == 1304 || t == 1305 || t == 1306 || t == 1307 || (t >= 1101 && t <= 1114) {
        MotCategory::Gondola
    } else if t == 7 || t == 1302 || t == 1303 || t == 1400 {
        MotCategory::Funicular
    } else if t == 5 {
        MotCategory::CableCar
    } else if t == 11 || t == 800 {
        MotCategory::Trolleybus
    } else if t == 12 {
        MotCategory::Monorail
    } else if (t >= 200 && t <= 209) {
        MotCategory::Coach
    } else if t == 1100 {
        MotCategory::Air
    } else {
        MotCategory::Other
    }
}

/// The mode that a route type stands for.
pub open spec fn category_of(rt: RouteType) -> MotCategory {
    match rt {
        RouteType::Tramway => MotCategory::Tram,
        RouteType::Subway => MotCategory::Subway,
        RouteType::Rail => MotCategory::Rail,
        RouteType::Bus => MotCategory::Bus,
        RouteType::Ferry => MotCategory::Ferry,
        RouteType::CableCar => MotCategory::CableCar,
        RouteType::Gondola => MotCategory::Gondola,
        RouteType::Funicular => MotCategory::Funicular,
        RouteType::Coach => MotCategory::Coach,
        RouteType::Other(t) => extended_category(t as int),
        _ => MotCategory::Other,
    }
}

/// The mode that a route type stands for.
pub fn map_route_type_to_category(rt: RouteType) -> (r: MotCategory)
    ensures
        r == category_of(rt),
{
    match rt {
        RouteType::Tramway => MotCategory::Tram,
        RouteType::Subway => MotCategory::Subway,
        RouteType::Rail => MotCategory::Rail,
        RouteType::Bus => MotCategory::Bus,
        RouteType::Ferry => MotCategory::Ferry,
        RouteType::CableCar => MotCategory::CableCar,
        RouteType::Gondola => MotCategory::Gondola,
        RouteType::Funicular => MotCategory::Funicular,
        RouteType::Coach => MotCategory::Coach,
        RouteType::Other(t) => map_extended_route_type(t as i32),
        _ => MotCategory::Other,
    }
}

/// Whether routes of a type are matched tile by tile: those of buses, coaches and trolleybuses. Trams
/// are not, as they have tracks of their own.
pub fn is_bus_like_route_type(rt: RouteType) -> (r: bool)
    ensures
        r == (rt == RouteType::Bus || rt == RouteType::Coach || rt == RouteType::Other(11) || rt
            == RouteType::Other(800)),
{
    match rt {
        RouteType::Bus => true,
        RouteType::Coach => true,
        RouteType::Other(t) => t == 11 || t == 800,
        _ => false,
    }
}

/// Whether routes of a mode are matched tile by tile.
pub fn is_bus_like(cat: MotCategory) -> (r: bool)
    ensures
        r == (cat == MotCategory::Bus || cat == MotCategory::Coach || cat
            == MotCategory::Trolleybus),
{
    matches!(cat, MotCategory::Bus | MotCategory::Coach | MotCategory::Trolleybus)
}

/// Route types that are matched tile by tile stand for modes that are.
pub proof fn lemma_bus_like_types(rt: RouteType)
    requires
        rt == RouteType::Bus || rt == RouteType::Coach || rt == RouteType::Other(11) || rt
            == RouteType::Other(800),
    ensures
        category_of(rt) == MotCategory::Bus || category_of(rt) == MotCategory::Coach || category_of(
            rt,
        ) == MotCategory::Trolleybus,
{
}

} // verus!
