//! The transit lines that relations give to ways.

use crate::graph::{ascending, EdgePL, TransitInfo, TransitInfoId, TransitInfoInterner};
use crate::hashed::{lists_get, lists_new, lists_of, lists_push, IdLists};
use crate::osm::{Member, OsmId};
use crate::resources::PreRelation;
use crate::tags::Tags;
use vstd::prelude::*;

verus! {

/// A transit line, as plain values: its name, and where it comes from and goes to.
pub type Line = (Seq<char>, Seq<char>, Seq<char>);

/// The value of a tag, or nothing.
pub open spec fn value_or_empty(v: Option<Seq<char>>) -> Seq<char> {
    match v {
        Some(s) => s,
        None => Seq::empty(),
    }
}

/// The line that a relation is: its reference, or else its name, and its ends.
pub open spec fn line_of(tags: Tags) -> Line {
    (
        value_or_empty(
            if tags.val("ref"@) is Some {
                tags.val("ref"@)
            } else {
                tags.val("name"@)
            },
        ),
        value_or_empty(tags.val("from"@)),
        value_or_empty(tags.val("to"@)),
    )
}

/// Whether a line has a name or an end.
pub open spec fn is_line(l: Line) -> bool {
    l.0.len() > 0 || l.1.len() > 0 || l.2.len() > 0
}

pub(crate) fn value_of(tags: &Tags, key: &str) -> (r: String)
    ensures
        r@ == value_or_empty(tags.val(key@)),
{
    match tags.get(key) {
        Some(v) => v.clone(),
        None => String::new(),
    }
}

/// The line that a relation is, if it has a name or an end.
pub fn transit_info_for_relation(relation: &PreRelation) -> (r: Option<TransitInfo>)
    ensures
        match r {
            Some(info) => is_line(line_of(relation.tags)) && info@ == line_of(relation.tags),
            None => !is_line(line_of(relation.tags)),
        },
{
    let short_name = match relation.tags.get("ref") {
        Some(v) => v.clone(),
        None => value_of(&relation.tags, "name"),
    };
    let from_str = value_of(&relation.tags, "from");
    let to_str = value_of(&relation.tags, "to");
    if short_name.as_str().unicode_len() == 0 && from_str.as_str().unicode_len() == 0
        && to_str.as_str().unicode_len() == 0 {
        None
    } else {
        Some(TransitInfo { short_name, from_str, to_str })
    }
}

/// A line joins a list of lines unless it is there.
pub open spec fn with_line(lines: Seq<Line>, l: Line) -> Seq<Line> {
    if lines.contains(l) {
        lines
    } else {
        lines.push(l)
    }
}

/// The lines of relations, each once, in the order in which they first occur.
pub open spec fn lines_of(rels: Seq<PreRelation>) -> Seq<Line>
    decreases rels.len(),
{
    if rels.len() == 0 {
        Seq::empty()
    } else {
        let rest = lines_of(rels.drop_last());
        if is_line(line_of(rels.last().tags)) {
            with_line(rest, line_of(rels.last().tags))
        } else {
            rest
        }
    }
}

/// Whether a relation that is kept has a way.
pub open spec fn covers(r: PreRelation, id: i64) -> bool {
    exists|j: int| 0 <= j < r.members@.len() && (#[trigger] r.members@[j]).member == OsmId::Way(id)
}

/// Whether a line uses a way: a relation is that line and has the way.
pub open spec fn line_uses(rels: Seq<PreRelation>, n: int, l: Line, id: i64) -> bool {
    exists|i: int|
        0 <= i < n && #[trigger] covers(rels[i], id) && is_line(line_of(rels[i].tags)) && line_of(
            rels[i].tags,
        ) == l
}

/// The lines of an extract, and for each way the lines that use it.
pub struct LineTable {
    pub infos: Vec<TransitInfo>,
    pub by_way: IdLists,
}

/// Whether a list holds a number.
pub open spec fn listed(m: IdLists, id: i64, x: u32) -> bool {
    lists_of(m).contains_key(id) && lists_of(m)[id].contains(x)
}

/// Whether the lists hold, for every way, the positions of the lines that use it.
pub open spec fn table_ok(m: IdLists, lines: Seq<Line>, rels: Seq<PreRelation>, n: int) -> bool {
    forall|id: i64, x: u32| #[trigger]
        listed(m, id, x) <==> x < lines.len() && line_uses(rels, n, lines[x as int], id)
}

proof fn lemma_lines(rels: Seq<PreRelation>, n: int)
    requires
        0 <= n <= rels.len(),
    ensures
        lines_of(rels.take(n)).len() <= lines_of(rels).len(),
        lines_of(rels).take(lines_of(rels.take(n)).len() as int) == lines_of(rels.take(n)),
    decreases rels.len(),
{
    if n < rels.len() {
        assert(rels.drop_last().take(n) =~= rels.take(n));
        lemma_lines(rels.drop_last(), n);
        let m = lines_of(rels.take(n)).len() as int;
        assert(lines_of(rels).take(m) =~= lines_of(rels.drop_last()).take(m));
    } else {
        assert(rels.take(n) =~= rels);
        assert(lines_of(rels).take(lines_of(rels).len() as int) =~= lines_of(rels));
    }
}

proof fn lemma_lines_distinct(rels: Seq<PreRelation>)
    ensures
        lines_of(rels).no_duplicates(),
    decreases rels.len(),
{
    if rels.len() > 0 {
        lemma_lines_distinct(rels.drop_last());
        let rest = lines_of(rels.drop_last());
        let l = line_of(rels.last().tags);
        if is_line(l) && !rest.contains(l) {
            let all = rest.push(l);
            assert forall|i: int, j: int| 0 <= i < all.len() && 0 <= j < all.len() && i != j implies all[i]
                != all[j] by {
                if i < rest.len() {
                    assert(rest.contains(rest[i]));
                }
                if j < rest.len() {
                    assert(rest.contains(rest[j]));
                }
            }
        }
    }
}

/// Every line that a relation is stands in the list of lines.
proof fn lemma_line_listed(rels: Seq<PreRelation>, i: int)
    requires
        0 <= i < rels.len(),
        is_line(line_of(rels[i].tags)),
    ensures
        lines_of(rels).contains(line_of(rels[i].tags)),
    decreases rels.len(),
{
    let rest = lines_of(rels.drop_last());
    let l = line_of(rels[i].tags);
    if i < rels.len() - 1 {
        lemma_line_listed(rels.drop_last(), i);
        let k = choose|k: int| 0 <= k < rest.len() && rest[k] == l;
        assert(lines_of(rels)[k] == l);
    } else if !rest.contains(l) {
        assert(lines_of(rels)[rest.len() as int] == l);
    }
}

/// Puts a line into the lists of the ways of a relation.
pub(crate) fn list_members(
    by_way: &mut IdLists,
    members: &Vec<Member>,
    id: TransitInfoId,
    Ghost(rel): Ghost<PreRelation>,
)
    requires
        rel.members == *members,
    ensures
        forall|w: i64, x: u32| #[trigger]
            listed(*final(by_way), w, x) <==> listed(*old(by_way), w, x) || (x == id && covers(
                rel,
                w,
            )),
{
    let mut j: usize = 0;
    while j < members.len()
        invariant
            j <= members@.len(),
            rel.members == *members,
            forall|w: i64, x: u32| #[trigger]
                listed(*by_way, w, x) <==> listed(*old(by_way), w, x) || (x == id && exists|m: int|
                    0 <= m < j && (#[trigger] members@[m]).member == OsmId::Way(w)),
        decreases members@.len() - j,
    {
        let ghost m0 = *by_way;
        match members[j].member {
            OsmId::Way(w) => {
                lists_push(by_way, w, id);
                proof {
                    let old_list = if lists_of(m0).contains_key(w) {
                        lists_of(m0)[w]
                    } else {
                        Seq::<u32>::empty()
                    };
                    assert forall|v: i64, x: u32| #[trigger] listed(*by_way, v, x) <==> listed(
                        m0,
                        v,
                        x,
                    ) || (v == w && x == id) by {
                        if v == w {
                            let new_list = old_list.push(id);
                            assert(lists_of(*by_way)[w] == new_list);
                            if old_list.contains(x) {
                                let k = choose|k: int| 0 <= k < old_list.len() && old_list[k] == x;
                                assert(new_list[k] == x);
                            }
                            if x == id {
                                assert(new_list[old_list.len() as int] == x);
                            }
                            if new_list.contains(x) && x != id {
                                let k = choose|k: int| 0 <= k < new_list.len() && new_list[k] == x;
                                assert(old_list[k] == x);
                            }
                        }
                    }
                    assert(members@[j as int].member == OsmId::Way(w));
                }
            },
            _ => {},
        }
        j = j + 1;
    }
}

proof fn lemma_uses_more(rels: Seq<PreRelation>, n: int, l: Line, id: i64)
    requires
        0 <= n < rels.len(),
    ensures
        line_uses(rels, n + 1, l, id) <==> line_uses(rels, n, l, id) || (covers(rels[n], id)
            && is_line(line_of(rels[n].tags)) && line_of(rels[n].tags) == l),
{
}

impl LineTable {
    /// Whether the table is that of some relations.
    pub open spec fn is_table_of(&self, rels: Seq<PreRelation>) -> bool {
        &&& self.infos@.map_values(|i: TransitInfo| i@) == lines_of(rels)
        &&& table_ok(self.by_way, lines_of(rels), rels, rels.len() as int)
    }

    /// The lines of the relations that are kept, each once, and the ways that they use.
    pub fn new(relations: &Vec<PreRelation>) -> (r: Self)
        requires
            lines_of(relations@).len() <= u32::MAX + 1,
        ensures
            r.is_table_of(relations@),
            r.infos@.map_values(|i: TransitInfo| i@) == lines_of(relations@),
    {
        let mut interner = TransitInfoInterner::new();
        let mut by_way = lists_new();
        let ghost rels = relations@;
        let mut i: usize = 0;
        assert(rels.take(0) =~= Seq::<PreRelation>::empty());
        while i < relations.len()
            invariant
                rels == relations@,
                lines_of(rels).len() <= u32::MAX + 1,
                i <= rels.len(),
                interner.wf(),
                interner@ == lines_of(rels.take(i as int)),
                table_ok(by_way, interner@, rels, i as int),
            decreases rels.len() - i,
        {
            proof {
                assert(rels.take(i + 1).drop_last() =~= rels.take(i as int));
                assert(rels.take(i + 1).last() == rels[i as int]);
                lemma_lines(rels, i + 1);
                lemma_lines_distinct(rels.take(i + 1));
            }
            let ghost before = interner@;
            let ghost m0 = by_way;
            match transit_info_for_relation(&relations[i]) {
                Some(info) => {
                    let ghost l = info@;
                    let id: TransitInfoId = interner.intern(info);
                    list_members(
                        &mut by_way,
                        &relations[i].members,
                        id,
                        Ghost(rels[i as int]),
                    );
                    proof {
                        let after = interner@;
                        assert(after == lines_of(rels.take(i + 1)));
                        assert forall|w: i64, x: u32| #[trigger] listed(by_way, w, x) <==> x
                            < after.len() && line_uses(rels, i + 1, after[x as int], w) by {
                            if x < after.len() {
                                lemma_uses_more(rels, i as int, after[x as int], w);
                                if x < before.len() {
                                    assert(after[x as int] == before[x as int]);
                                } else if line_uses(rels, i as int, after[x as int], w) {
                                    lemma_used_is_line(rels, i as int, after[x as int], w);
                                }
                                if after[x as int] == l {
                                    assert(after[id as int] == l);
                                }
                            }
                            assert(listed(m0, w, x) <==> x < before.len() && line_uses(
                                rels,
                                i as int,
                                before[x as int],
                                w,
                            ));
                        }
                    }
                },
                None => {
                    proof {
                        assert forall|w: i64, x: u32| #[trigger] listed(by_way, w, x) <==> x
                            < before.len() && line_uses(rels, i + 1, before[x as int], w) by {
                            if x < before.len() {
                                lemma_uses_more(rels, i as int, before[x as int], w);
                            }
                        }
                    }
                },
            }
            i = i + 1;
        }
        assert(rels.take(i as int) =~= rels);
        LineTable { infos: interner.into_infos(), by_way }
    }

    /// The lines that use a way, by their positions, ascending.
    pub fn lines_of_way(&self, id: i64) -> (r: Vec<TransitInfoId>)
        ensures
            ascending(r@),
            forall|x: u32| #[trigger] r@.contains(x) <==> listed(self.by_way, id, x),
            forall|rels: Seq<PreRelation>| #[trigger]
                self.is_table_of(rels) && lines_of(rels).len() <= u32::MAX + 1 ==> r@ == way_lines(
                    rels,
                    id,
                ),
    {
        let r = sorted_list(&self.by_way, id);
        proof {
            assert forall|rels: Seq<PreRelation>| #[trigger]
                self.is_table_of(rels) && lines_of(rels).len() <= u32::MAX + 1 implies r@
                == way_lines(rels, id) by {
                assert forall|x: u32| #[trigger] r@.contains(x) <==> x < lines_of(rels).len()
                    && line_uses(rels, rels.len() as int, lines_of(rels)[x as int], id) by {
                    assert(listed(self.by_way, id, x) <==> x < lines_of(rels).len() && line_uses(
                        rels,
                        rels.len() as int,
                        lines_of(rels)[x as int],
                        id,
                    ));
                }
                lemma_way_lines(rels, id);
                lemma_lines_unique(rels, id, r@, way_lines(rels, id));
            }
        }
        r
    }
}

/// The numbers that are listed under a way, ascending and each once.
pub(crate) fn sorted_list(by_way: &IdLists, id: i64) -> (r: Vec<u32>)
    ensures
        ascending(r@),
        forall|x: u32| #[trigger] r@.contains(x) <==> listed(*by_way, id, x),
{
    let mut holder = EdgePL::new();
    if let Some(list) = lists_get(by_way, id) {
        let mut k: usize = 0;
        while k < list.len()
            invariant
                k <= list@.len(),
                ascending(holder.lines@),
                forall|x: u32| #[trigger]
                    holder.lines@.contains(x) <==> list@.take(k as int).contains(x),
            decreases list@.len() - k,
        {
            let ghost before = holder.lines@;
            holder.add_line_id(list[k]);
            proof {
                let t0 = list@.take(k as int);
                let t1 = list@.take(k + 1);
                assert(t1 =~= t0.push(list@[k as int]));
                assert forall|x: u32| #[trigger] holder.lines@.contains(x) <==> t1.contains(
                    x,
                ) by {
                    if t0.contains(x) {
                        let m = choose|m: int| 0 <= m < t0.len() && t0[m] == x;
                        assert(t1[m] == x);
                    }
                    if x == list@[k as int] {
                        assert(t1[k as int] == x);
                    }
                    if t1.contains(x) && x != list@[k as int] {
                        let m = choose|m: int| 0 <= m < t1.len() && t1[m] == x;
                        assert(t0[m] == x);
                    }
                    assert(before.contains(x) <==> t0.contains(x));
                }
            }
            k = k + 1;
        }
        assert(list@.take(k as int) =~= list@);
    }
    let r = holder.lines;
    assert forall|x: u32| #[trigger] r@.contains(x) <==> listed(*by_way, id, x) by {}
    r
}

/// Whether a list holds the positions of the lines that use a way, ascending.
pub open spec fn is_lines_of_way(rels: Seq<PreRelation>, id: i64, r: Seq<u32>) -> bool {
    &&& ascending(r)
    &&& forall|x: u32| #[trigger]
        r.contains(x) <==> x < lines_of(rels).len() && line_uses(
            rels,
            rels.len() as int,
            lines_of(rels)[x as int],
            id,
        )
}

/// The positions, among the first `n` lines, of the lines that use a way.
pub open spec fn used_lines(rels: Seq<PreRelation>, id: i64, n: int) -> Seq<u32>
    decreases n,
{
    if n <= 0 {
        Seq::empty()
    } else {
        let rest = used_lines(rels, id, n - 1);
        if line_uses(rels, rels.len() as int, lines_of(rels)[n - 1], id) {
            rest.push((n - 1) as u32)
        } else {
            rest
        }
    }
}

/// The positions of the lines that use a way.
pub open spec fn way_lines(rels: Seq<PreRelation>, id: i64) -> Seq<u32> {
    used_lines(rels, id, lines_of(rels).len() as int)
}

proof fn lemma_used_lines(rels: Seq<PreRelation>, id: i64, n: int)
    requires
        0 <= n <= lines_of(rels).len(),
        n <= u32::MAX + 1,
    ensures
        ascending(used_lines(rels, id, n)),
        forall|x: u32| #[trigger]
            used_lines(rels, id, n).contains(x) <==> x < n && line_uses(
                rels,
                rels.len() as int,
                lines_of(rels)[x as int],
                id,
            ),
    decreases n,
{
    if n > 0 {
        lemma_used_lines(rels, id, n - 1);
        let rest = used_lines(rels, id, n - 1);
        let all = used_lines(rels, id, n);
        let last = (n - 1) as u32;
        assert forall|i: int| 0 <= i < rest.len() implies #[trigger] rest[i] < last by {
            assert(rest.contains(rest[i]));
        }
        assert forall|x: u32| #[trigger] all.contains(x) <==> x < n && line_uses(
            rels,
            rels.len() as int,
            lines_of(rels)[x as int],
            id,
        ) by {
            if rest.contains(x) {
                let k = choose|k: int| 0 <= k < rest.len() && rest[k] == x;
                assert(all[k] == x);
            }
            if x == last && line_uses(rels, rels.len() as int, lines_of(rels)[n - 1], id) {
                assert(all[rest.len() as int] == x);
            }
            if all.contains(x) {
                let k = choose|k: int| 0 <= k < all.len() && all[k] == x;
                if k < rest.len() {
                    assert(rest[k] == x);
                    assert(rest.contains(x));
                }
            }
        }
    }
}

/// The lines of a way stand in ascending order, and are exactly those that use it.
pub proof fn lemma_way_lines(rels: Seq<PreRelation>, id: i64)
    requires
        lines_of(rels).len() <= u32::MAX + 1,
    ensures
        is_lines_of_way(rels, id, way_lines(rels, id)),
{
    lemma_used_lines(rels, id, lines_of(rels).len() as int);
}

/// A line that uses a way is one of the lines.
proof fn lemma_used_is_line(rels: Seq<PreRelation>, n: int, l: Line, id: i64)
    requires
        0 <= n <= rels.len(),
        line_uses(rels, n, l, id),
    ensures
        lines_of(rels.take(n)).contains(l),
{
    let i = choose|i: int|
        0 <= i < n && #[trigger] covers(rels[i], id) && is_line(line_of(rels[i].tags)) && line_of(
            rels[i].tags,
        ) == l;
    assert(rels.take(n)[i] == rels[i]);
    lemma_line_listed(rels.take(n), i);
}

/// Two lists of the lines of a way are equal.
pub proof fn lemma_lines_unique(rels: Seq<PreRelation>, id: i64, a: Seq<u32>, b: Seq<u32>)
    requires
        is_lines_of_way(rels, id, a),
        is_lines_of_way(rels, id, b),
    ensures
        a == b,
{
    assert forall|x: u32| a.contains(x) <==> b.contains(x) by {}
    lemma_ascending_unique(a, b);
}

/// Two ascending lists with the same contents are equal.
pub proof fn lemma_ascending_unique(a: Seq<u32>, b: Seq<u32>)
    requires
        ascending(a),
        ascending(b),
        forall|x: u32| a.contains(x) <==> b.contains(x),
    ensures
        a == b,
    decreases a.len(),
{
    if a.len() == 0 {
        if b.len() > 0 {
            assert(b.contains(b[0]));
            assert(a.contains(b[0]));
        }
        assert(a =~= b);
    } else {
        assert(a.contains(a.last()));
        assert(b.contains(a.last()));
        assert(b.contains(b.last()));
        assert(a.contains(b.last()));
        let i = choose|i: int| 0 <= i < b.len() && b[i] == a.last();
        let j = choose|j: int| 0 <= j < a.len() && a[j] == b.last();
        assert(a.last() == b.last());
        let p = a.drop_last();
        let q = b.drop_last();
        assert forall|x: u32| p.contains(x) <==> q.contains(x) by {
            if p.contains(x) {
                let k = choose|k: int| 0 <= k < p.len() && p[k] == x;
                assert(a[k] == x && a.contains(x) && b.contains(x));
                let m = choose|m: int| 0 <= m < b.len() && b[m] == x;
                assert(m < b.len() - 1);
                assert(q[m] == x);
            }
            if q.contains(x) {
                let k = choose|k: int| 0 <= k < q.len() && q[k] == x;
                assert(b[k] == x && b.contains(x) && a.contains(x));
                let m = choose|m: int| 0 <= m < a.len() && a[m] == x;
                assert(m < a.len() - 1);
                assert(p[m] == x);
            }
        }
        lemma_ascending_unique(p, q);
        assert(a =~= p.push(a.last()));
        assert(b =~= q.push(b.last()));
    }
}

} // verus!
