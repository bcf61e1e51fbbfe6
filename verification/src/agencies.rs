//! Whose routes are matched together.

use crate::edge_attrs::{
    lemma_precedes_irreflexive, lemma_precedes_total, lemma_precedes_transitive, precedes, same_text,
    text_precedes,
};
use crate::text::{lowercase_of, str_eq, to_lowercase};
use crate::tile_graph::RoadProfile;
use vstd::prelude::*;

verus! {

/// Someone who runs routes.
#[derive(Debug)]
pub struct Agency {
    pub id: Option<String>,
    pub name: String,
}

/// Whether an agency has this identifier.
pub open spec fn is_called(a: Agency, id: Seq<char>) -> bool {
    a.id is Some && (a.id->0)@ == id
}

/// The name, in lower case, of the first agency with an identifier. Where there is none, the routes come
/// last.
pub open spec fn name_of_agency(agencies: Seq<Agency>, n: int, id: Seq<char>) -> Seq<char>
    decreases agencies.len() - n,
{
    if n < 0 || n >= agencies.len() {
        "zzz_unknown"@
    } else if is_called(agencies[n], id) {
        lowercase_of(agencies[n].name@)
    } else {
        name_of_agency(agencies, n + 1, id)
    }
}

/// The name under which the routes of an agency are grouped.
pub fn agency_name(agency_id: Option<&String>, agencies: &Vec<Agency>) -> (r: String)
    ensures
        r@ == (match agency_id {
            Some(id) => name_of_agency(agencies@, 0, id@),
            None => "zzz_unknown"@,
        }),
{
    if let Some(id) = agency_id {
        let mut i: usize = 0;
        while i < agencies.len()
            invariant
                agency_id == Some(id),
                i <= agencies@.len(),
                name_of_agency(agencies@, 0, id@) == name_of_agency(agencies@, i as int, id@),
            decreases agencies@.len() - i,
        {
            if let Some(other) = &agencies[i].id {
                if str_eq(other.as_str(), id.as_str()) {
                    assert(is_called(agencies@[i as int], id@));
                    return to_lowercase(agencies[i].name.as_str());
                }
            }
            i = i + 1;
        }
    }
    "zzz_unknown".to_owned()
}

/// The routes of an agency on one road graph, by their positions.
#[derive(Debug)]
pub struct AgencyGroup {
    pub agency: String,
    pub profile: RoadProfile,
    pub patterns: Vec<usize>,
}

/// By what routes are grouped.
pub type Key = (Seq<char>, RoadProfile);

/// Whether a key comes before another: by the name, and buses before coaches.
pub open spec fn comes_before(a: Key, b: Key) -> bool {
    precedes(a.0, b.0) || (a.0 == b.0 && a.1 == RoadProfile::Bus && b.1 == RoadProfile::Coach)
}

/// The key of a group.
pub open spec fn key_of(g: AgencyGroup) -> Key {
    (g.agency@, g.profile)
}

/// The keys of routes.
pub open spec fn keys(names: Seq<String>, profiles: Seq<RoadProfile>) -> Seq<Key> {
    Seq::new(names.len(), |i: int| (names[i]@, profiles[i]))
}

/// The positions, among the first `n`, of the routes with a key.
pub open spec fn positions_of(all: Seq<Key>, n: int, key: Key) -> Seq<usize>
    decreases n,
{
    if n <= 0 {
        Seq::empty()
    } else if all[n - 1] == key {
        positions_of(all, n - 1, key).push((n - 1) as usize)
    } else {
        positions_of(all, n - 1, key)
    }
}

/// Whether one of the groups has a key.
pub open spec fn has_group(groups: Seq<AgencyGroup>, key: Key) -> bool {
    exists|i: int| 0 <= i < groups.len() && key_of(#[trigger] groups[i]) == key
}

/// Whether groups are those of the first `n` routes: in their order, each with all of its routes, and a
/// group for each route.
pub open spec fn are_groups(groups: Seq<AgencyGroup>, all: Seq<Key>, n: int) -> bool {
    &&& forall|i: int, j: int|
        #![trigger groups[i], groups[j]]
        0 <= i < j < groups.len() ==> comes_before(key_of(groups[i]), key_of(groups[j]))
    &&& forall|i: int|
        #![trigger groups[i]]
        0 <= i < groups.len() ==> groups[i].patterns@ == positions_of(all, n, key_of(groups[i]))
            && groups[i].patterns@.len() > 0
    &&& forall|p: int| #![trigger all[p]] 0 <= p < n ==> has_group(groups, all[p])
}

proof fn lemma_key_transitive(a: Key, b: Key, c: Key)
    requires
        comes_before(a, b),
        comes_before(b, c),
    ensures
        comes_before(a, c),
{
    if precedes(a.0, b.0) && precedes(b.0, c.0) {
        lemma_precedes_transitive(a.0, b.0, c.0);
    }
}

proof fn lemma_key_total(a: Key, b: Key)
    ensures
        !comes_before(a, a),
        a == b || comes_before(a, b) || comes_before(b, a),
{
    lemma_precedes_irreflexive(a.0);
    lemma_precedes_total(a.0, b.0);
}

fn goes_before(name: &String, profile: RoadProfile, other: &String, other_profile: RoadProfile) -> (r:
    bool)
    ensures
        r == comes_before((name@, profile), (other@, other_profile)),
{
    text_precedes(name, other) || (same_text(name, other) && profile == RoadProfile::Bus
        && other_profile == RoadProfile::Coach)
}

proof fn lemma_positions_empty(all: Seq<Key>, n: int, key: Key)
    requires
        0 <= n <= all.len(),
        forall|p: int| #![trigger all[p]] 0 <= p < n ==> all[p] != key,
    ensures
        positions_of(all, n, key) == Seq::<usize>::empty(),
    decreases n,
{
    if n > 0 {
        assert(all[n - 1] != key);
        lemma_positions_empty(all, n - 1, key);
    }
}

/// Puts a route into its group.
fn put_pattern(
    groups: &mut Vec<AgencyGroup>,
    name: &String,
    profile: RoadProfile,
    at: usize,
    Ghost(all): Ghost<Seq<Key>>,
)
    requires
        are_groups(old(groups)@, all, at as int),
        at < all.len(),
        all[at as int] == (name@, profile),
    ensures
        are_groups(final(groups)@, all, at + 1),
{
    let ghost key = (name@, profile);
    let ghost g0 = groups@;
    let mut q: usize = 0;
    while q < groups.len() && goes_before(&groups[q].agency, groups[q].profile, name, profile)
        invariant
            groups@ == g0,
            q <= g0.len(),
            key == (name@, profile),
            forall|i: int| 0 <= i < q ==> comes_before(key_of(#[trigger] g0[i]), key),
        decreases g0.len() - q,
    {
        q = q + 1;
    }
    proof {
        lemma_key_total(key, key);
    }
    if q < groups.len() && !goes_before(name, profile, &groups[q].agency, groups[q].profile) {
        proof {
            lemma_key_total(key, key_of(g0[q as int]));
            lemma_key_total(key_of(g0[q as int]), key);
            assert(key_of(g0[q as int]) == key);
        }
        groups[q].patterns.push(at);
        proof {
            let g1 = groups@;
            assert forall|i: int| #![trigger g1[i]] 0 <= i < g1.len() implies key_of(g1[i]) == key_of(
                g0[i],
            ) && g1[i].patterns@ == positions_of(all, at + 1, key_of(g1[i]))
                && g1[i].patterns@.len() > 0 by {
                assert(g0[i].patterns@ == positions_of(all, at as int, key_of(g0[i])));
                if i != q {
                    assert(g1[i] == g0[i]);
                    if key_of(g0[i]) == key {
                        lemma_key_total(key, key);
                        if i < q {
                            assert(comes_before(key_of(g0[i]), key_of(g0[q as int])));
                        } else {
                            assert(comes_before(key_of(g0[q as int]), key_of(g0[i])));
                        }
                    }
                }
            }
            assert forall|i: int, j: int|
                #![trigger g1[i], g1[j]]
                0 <= i < j < g1.len() implies comes_before(key_of(g1[i]), key_of(g1[j])) by {
                assert(comes_before(key_of(g0[i]), key_of(g0[j])));
            }
            assert forall|p: int| #![trigger all[p]] 0 <= p < at + 1 implies has_group(g1, all[p]) by {
                if p < at {
                    assert(has_group(g0, all[p]));
                    let i = choose|i: int| 0 <= i < g0.len() && key_of(#[trigger] g0[i]) == all[p];
                    assert(key_of(g1[i]) == all[p]);
                } else {
                    assert(key_of(g1[q as int]) == key);
                }
            }
        }
        return ;
    }
    proof {
        assert forall|i: int| q <= i < g0.len() implies comes_before(key, key_of(#[trigger] g0[i])) by {
            if i > q {
                lemma_key_transitive(key, key_of(g0[q as int]), key_of(g0[i]));
            }
        }
        assert forall|i: int| 0 <= i < g0.len() implies key_of(#[trigger] g0[i]) != key by {
            lemma_key_total(key, key);
        }
        assert(!has_group(g0, key));
        assert forall|p: int| #![trigger all[p]] 0 <= p < at implies all[p] != key by {
            assert(has_group(g0, all[p]));
        }
        lemma_positions_empty(all, at as int, key);
    }
    let mut patterns: Vec<usize> = Vec::new();
    patterns.push(at);
    let group = AgencyGroup { agency: name.clone(), profile, patterns };
    let ghost new = group;
    assert(new.patterns@ =~= positions_of(all, at + 1, key));
    groups.insert(q, group);
    proof {
        let g1 = groups@;
        assert(g1 =~= g0.insert(q as int, new));
        assert forall|i: int| #![trigger g1[i]] 0 <= i < g1.len() implies g1[i].patterns@
            == positions_of(all, at + 1, key_of(g1[i])) && g1[i].patterns@.len() > 0 by {
            if i < q {
                assert(g1[i] == g0[i]);
            } else if i > q {
                assert(g1[i] == g0[i - 1]);
            }
        }
        assert forall|i: int, j: int|
            #![trigger g1[i], g1[j]]
            0 <= i < j < g1.len() implies comes_before(key_of(g1[i]), key_of(g1[j])) by {
            if i < q {
                assert(g1[i] == g0[i]);
                if j > q {
                    assert(g1[j] == g0[j - 1]);
                } else if j < q {
                    assert(g1[j] == g0[j]);
                }
            } else if i == q {
                assert(g1[j] == g0[j - 1]);
            } else {
                assert(g1[i] == g0[i - 1] && g1[j] == g0[j - 1]);
            }
        }
        assert forall|p: int| #![trigger all[p]] 0 <= p < at + 1 implies has_group(g1, all[p]) by {
            if p < at {
                assert(has_group(g0, all[p]));
                let i = choose|i: int| 0 <= i < g0.len() && key_of(#[trigger] g0[i]) == all[p];
                if i < q {
                    assert(g1[i] == g0[i]);
                } else {
                    assert(g1[i + 1] == g0[i]);
                }
            } else {
                assert(key_of(g1[q as int]) == key);
            }
        }
    }
}

/// Groups routes by the agencies that run them and the road graphs that they use, in the order of the
/// names.
pub fn group_by_agency(names: &Vec<String>, profiles: &Vec<RoadProfile>) -> (r: Vec<AgencyGroup>)
    requires
        names@.len() == profiles@.len(),
    ensures
        are_groups(r@, keys(names@, profiles@), names@.len() as int),
{
    let ghost all = keys(names@, profiles@);
    let mut groups: Vec<AgencyGroup> = Vec::new();
    let mut i: usize = 0;
    while i < names.len()
        invariant
            names@.len() == profiles@.len(),
            all == keys(names@, profiles@),
            i <= names@.len(),
            are_groups(groups@, all, i as int),
        decreases names@.len() - i,
    {
        put_pattern(&mut groups, &names[i], profiles[i], i, Ghost(all));
        i = i + 1;
    }
    groups
}

/// A route is matched in one group only.
pub proof fn lemma_one_group(groups: Seq<AgencyGroup>, all: Seq<Key>, n: int, i: int, j: int)
    requires
        are_groups(groups, all, n),
        0 <= i < groups.len(),
        0 <= j < groups.len(),
        key_of(groups[i]) == key_of(groups[j]),
    ensures
        i == j,
{
    lemma_key_total(key_of(groups[i]), key_of(groups[i]));
    if i < j {
        assert(comes_before(key_of(groups[i]), key_of(groups[j])));
    } else if j < i {
        assert(comes_before(key_of(groups[j]), key_of(groups[i])));
    }
}

} // verus!
