//! What can be told about an edge in words: its attributes, and the lines that use it by name.

use crate::graph::{EdgePL, TransitInfo};
use crate::shape_ids::{decimal, to_decimal};
use crate::hashed::{texts_insert, texts_new, texts_of, TextMap};
use crate::text::{chars_of, str_eq};
use vstd::prelude::*;

verus! {

/// A whole number in decimal digits, behind a minus if it is negative.
pub open spec fn signed_decimal(n: int) -> Seq<char> {
    if n < 0 {
        "-"@ + decimal((-n) as nat)
    } else {
        decimal(n as nat)
    }
}

fn to_signed_decimal(n: i64) -> (r: String)
    ensures
        r@ == signed_decimal(n as int),
{
    if n < 0 {
        let m: i128 = -(n as i128);
        "-".to_owned().concat(to_decimal(m as u64).as_str())
    } else {
        to_decimal(n as u64)
    }
}

/// A number of tenths in decimal digits. What is whole has no fraction.
pub open spec fn tenths_decimal(n: nat) -> Seq<char> {
    if n % 10 == 0 {
        decimal(n / 10)
    } else {
        decimal(n / 10) + "."@ + decimal(n % 10)
    }
}

fn to_tenths_decimal(n: u32) -> (r: String)
    ensures
        r@ == tenths_decimal(n as nat),
{
    let whole = to_decimal((n / 10) as u64);
    if n % 10 == 0 {
        whole
    } else {
        whole.concat(".").concat(to_decimal((n % 10) as u64).as_str())
    }
}

/// The name of a line, with where it comes from and goes to if one of these is known.
pub open spec fn line_text(l: (Seq<char>, Seq<char>, Seq<char>)) -> Seq<char> {
    if l.1.len() > 0 || l.2.len() > 0 {
        l.0 + "("@ + l.1 + "->"@ + l.2 + ")"@
    } else {
        l.0
    }
}

fn line_text_of(l: &TransitInfo) -> (r: String)
    ensures
        r@ == line_text(l@),
{
    proof {
        reveal_strlit("");
    }
    let s = l.short_name.clone();
    if !str_eq(l.from_str.as_str(), "") || !str_eq(l.to_str.as_str(), "") {
        assert(l.from_str@.len() > 0 || l.to_str@.len() > 0) by {
            if l.from_str@.len() == 0 {
                assert(l.from_str@ =~= ""@);
            }
            if l.to_str@.len() == 0 {
                assert(l.to_str@ =~= ""@);
            }
        }
        return s.concat("(").concat(l.from_str.as_str()).concat("->").concat(
            l.to_str.as_str(),
        ).concat(")");
    }
    s
}

/// The names of the first `n` lines that are known, with commas between them.
pub open spec fn lines_text(
    ids: Seq<u32>,
    lines: Seq<(Seq<char>, Seq<char>, Seq<char>)>,
    n: int,
) -> Option<Seq<char>>
    decreases n,
{
    if n <= 0 {
        None
    } else if ids[n - 1] < lines.len() {
        let t = line_text(lines[ids[n - 1] as int]);
        match lines_text(ids, lines, n - 1) {
            Some(s) => Some(s + ","@ + t),
            None => Some(t),
        }
    } else {
        lines_text(ids, lines, n - 1)
    }
}

pub open spec fn or_empty(s: Option<Seq<char>>) -> Seq<char> {
    match s {
        Some(t) => t,
        None => ""@,
    }
}

/// The attributes of an edge, each under its name, given its length in words and its lines.
pub open spec fn attrs_of(
    e: EdgePL,
    length: Seq<char>,
    lines: Seq<(Seq<char>, Seq<char>, Seq<char>)>,
) -> Map<Seq<char>, Seq<char>> {
    Map::<Seq<char>, Seq<char>>::empty().insert("m_length"@, length).insert(
        "oneway"@,
        decimal(e.oneway as nat),
    ).insert("cost"@, tenths_decimal(e.cost as nat)).insert(
        "level"@,
        signed_decimal(e.level as int),
    ).insert(
        "restriction"@,
        if e.restriction {
            "yes"@
        } else {
            "no"@
        },
    ).insert("allowed_modes"@, decimal(e.allowed_modes as nat)).insert(
        "osmid"@,
        signed_decimal(e.osmid as int),
    ).insert("preferred_direction"@, decimal(e.preferred_direction as nat)).insert(
        "lines"@,
        or_empty(lines_text(e.lines@, lines, e.lines@.len() as int)),
    )
}

impl EdgePL {
    /// The attributes of the edge, each under its name, given its length in words. Its cost is told in
    /// seconds.
    pub fn get_attrs(&self, transit_lines: &Vec<TransitInfo>, length: &str) -> (r: TextMap)
        ensures
            texts_of(r) == attrs_of(
                *self,
                length@,
                transit_lines@.map_values(|i: TransitInfo| i@),
            ),
    {
        let ghost infos = transit_lines@.map_values(|i: TransitInfo| i@);
        let mut text: Option<String> = None;
        let mut k: usize = 0;
        while k < self.lines.len()
            invariant
                k <= self.lines@.len(),
                infos == transit_lines@.map_values(|i: TransitInfo| i@),
                lines_text(self.lines@, infos, k as int) == (match text {
                    Some(t) => Some(t@),
                    None => None,
                }),
            decreases self.lines@.len() - k,
        {
            let id: usize = self.lines[k] as usize;
            if id < transit_lines.len() {
                let t = line_text_of(&transit_lines[id]);
                text = match text {
                    Some(s) => Some(s.concat(",").concat(t.as_str())),
                    None => Some(t),
                };
            }
            k = k + 1;
        }
        let lines = match text {
            Some(t) => t,
            None => "".to_owned(),
        };
        let restriction = if self.restriction {
            "yes"
        } else {
            "no"
        };
        let mut r = texts_new();
        texts_insert(&mut r, "m_length".to_owned(), length.to_owned());
        texts_insert(&mut r, "oneway".to_owned(), to_decimal(self.oneway as u64));
        texts_insert(&mut r, "cost".to_owned(), to_tenths_decimal(self.cost));
        texts_insert(&mut r, "level".to_owned(), to_signed_decimal(self.level as i64));
        texts_insert(&mut r, "restriction".to_owned(), restriction.to_owned());
        texts_insert(&mut r, "allowed_modes".to_owned(), to_decimal(self.allowed_modes as u64));
        texts_insert(&mut r, "osmid".to_owned(), to_signed_decimal(self.osmid));
        texts_insert(&mut r, "preferred_direction".to_owned(), to_decimal(self.preferred_direction as u64));
        texts_insert(&mut r, "lines".to_owned(), lines);
        r
    }
}

/// A line by its names.
#[derive(Debug, Clone, PartialEq, Eq)]
pub struct NamedLine {
    pub short_name: String,
    pub from_str: String,
    pub to_str: String,
    pub operator: Option<String>,
}

/// Whether a text comes before another, by the codes of its characters.
pub open spec fn precedes(a: Seq<char>, b: Seq<char>) -> bool
    decreases a.len(),
{
    if b.len() == 0 {
        false
    } else if a.len() == 0 {
        true
    } else if a[0] != b[0] {
        (a[0] as int) < (b[0] as int)
    } else {
        precedes(a.drop_first(), b.drop_first())
    }
}

pub(crate) proof fn lemma_precedes_irreflexive(a: Seq<char>)
    ensures
        !precedes(a, a),
    decreases a.len(),
{
    if a.len() > 0 {
        lemma_precedes_irreflexive(a.drop_first());
    }
}

pub(crate) proof fn lemma_precedes_transitive(a: Seq<char>, b: Seq<char>, c: Seq<char>)
    requires
        precedes(a, b),
        precedes(b, c),
    ensures
        precedes(a, c),
    decreases a.len(),
{
    if a.len() > 0 && a[0] == b[0] && b[0] == c[0] {
        lemma_precedes_transitive(a.drop_first(), b.drop_first(), c.drop_first());
    }
}

pub(crate) proof fn lemma_precedes_total(a: Seq<char>, b: Seq<char>)
    ensures
        a == b || precedes(a, b) || precedes(b, a),
    decreases a.len(),
{
    if a.len() == 0 || b.len() == 0 {
        if a.len() == 0 && b.len() == 0 {
            assert(a =~= b);
        }
    } else if a[0] == b[0] {
        lemma_precedes_total(a.drop_first(), b.drop_first());
        if a.drop_first() == b.drop_first() {
            assert(a =~= seq![a[0]] + a.drop_first());
            assert(b =~= seq![b[0]] + b.drop_first());
        }
    } else {
        assert(a[0] as int != b[0] as int);
    }
}

/// Whether a list of texts comes before another: by the first in which they differ.
pub open spec fn list_precedes(a: Seq<Seq<char>>, b: Seq<Seq<char>>) -> bool
    decreases a.len(),
{
    if b.len() == 0 {
        false
    } else if a.len() == 0 {
        true
    } else if a[0] != b[0] {
        precedes(a[0], b[0])
    } else {
        list_precedes(a.drop_first(), b.drop_first())
    }
}

proof fn lemma_list_transitive(a: Seq<Seq<char>>, b: Seq<Seq<char>>, c: Seq<Seq<char>>)
    requires
        list_precedes(a, b),
        list_precedes(b, c),
    ensures
        list_precedes(a, c),
    decreases a.len(),
{
    if a.len() > 0 {
        if a[0] == b[0] && b[0] == c[0] {
            lemma_list_transitive(a.drop_first(), b.drop_first(), c.drop_first());
        } else if a[0] != b[0] && b[0] != c[0] {
            lemma_precedes_transitive(a[0], b[0], c[0]);
            lemma_precedes_irreflexive(a[0]);
        }
    }
}

proof fn lemma_list_irreflexive(a: Seq<Seq<char>>)
    ensures
        !list_precedes(a, a),
    decreases a.len(),
{
    if a.len() > 0 {
        lemma_list_irreflexive(a.drop_first());
    }
}

proof fn lemma_list_total(a: Seq<Seq<char>>, b: Seq<Seq<char>>)
    ensures
        a == b || list_precedes(a, b) || list_precedes(b, a),
    decreases a.len(),
{
    if a.len() == 0 || b.len() == 0 {
        if a.len() == 0 && b.len() == 0 {
            assert(a =~= b);
        }
    } else if a[0] == b[0] {
        lemma_list_total(a.drop_first(), b.drop_first());
        if a.drop_first() == b.drop_first() {
            assert(a =~= seq![a[0]] + a.drop_first());
            assert(b =~= seq![b[0]] + b.drop_first());
        }
    } else {
        lemma_precedes_total(a[0], b[0]);
    }
}

impl View for NamedLine {
    type V = Seq<Seq<char>>;

    open spec fn view(&self) -> Seq<Seq<char>> {
        let base = seq![self.short_name@, self.from_str@, self.to_str@];
        match self.operator {
            Some(o) => base.push(o@),
            None => base,
        }
    }
}

/// Whether lines stand in their order, each once.
pub open spec fn is_line_list(lines: Seq<NamedLine>) -> bool {
    forall|i: int, j: int|
        #![trigger lines[i], lines[j]]
        0 <= i < j < lines.len() ==> list_precedes(lines[i]@, lines[j]@)
}

pub(crate) fn text_precedes(a: &String, b: &String) -> (r: bool)
    ensures
        r == precedes(a@, b@),
{
    let x = chars_of(a.as_str());
    let y = chars_of(b.as_str());
    let mut i: usize = 0;
    assert(a@.skip(0) =~= a@ && b@.skip(0) =~= b@);
    while i < x.len() && i < y.len()
        invariant
            x@ == a@,
            y@ == b@,
            i <= x@.len(),
            i <= y@.len(),
            precedes(a@, b@) == precedes(a@.skip(i as int), b@.skip(i as int)),
        decreases x@.len() - i,
    {
        if x[i] != y[i] {
            let c: char = x[i];
            let d: char = y[i];
            return c < d;
        }
        assert(a@.skip(i as int).drop_first() =~= a@.skip(i + 1));
        assert(b@.skip(i as int).drop_first() =~= b@.skip(i + 1));
        i = i + 1;
    }
    i < y.len()
}

pub(crate) fn same_text(a: &String, b: &String) -> (r: bool)
    ensures
        r == (a@ == b@),
{
    str_eq(a.as_str(), b.as_str())
}

fn line_precedes(a: &NamedLine, b: &NamedLine) -> (r: bool)
    ensures
        r == list_precedes(a@, b@),
{
    let ghost x = a@;
    let ghost y = b@;
    proof {
        assert(x[0] == a.short_name@ && x[1] == a.from_str@ && x[2] == a.to_str@);
        assert(y[0] == b.short_name@ && y[1] == b.from_str@ && y[2] == b.to_str@);
        reveal_with_fuel(list_precedes, 6);
    }
    if !same_text(&a.short_name, &b.short_name) {
        return text_precedes(&a.short_name, &b.short_name);
    }
    if !same_text(&a.from_str, &b.from_str) {
        return text_precedes(&a.from_str, &b.from_str);
    }
    if !same_text(&a.to_str, &b.to_str) {
        return text_precedes(&a.to_str, &b.to_str);
    }
    let ghost u = x.drop_first().drop_first().drop_first();
    let ghost v = y.drop_first().drop_first().drop_first();
    assert(list_precedes(x, y) == list_precedes(u, v));
    match (&a.operator, &b.operator) {
        (_, None) => {
            assert(v.len() == 0);
            false
        },
        (None, Some(_)) => {
            assert(u.len() == 0 && v.len() == 1);
            true
        },
        (Some(o), Some(p)) => {
            proof {
                assert(u =~= seq![o@] && v =~= seq![p@]);
                lemma_precedes_irreflexive(o@);
                assert(u.drop_first().len() == 0 && v.drop_first().len() == 0);
            }
            text_precedes(o, p)
        },
    }
}

/// Adds a line to a list unless it is there.
pub fn add_line(lines: &mut Vec<NamedLine>, info: NamedLine)
    requires
        is_line_list(old(lines)@),
    ensures
        is_line_list(final(lines)@),
        (exists|i: int| 0 <= i < old(lines)@.len() && (#[trigger] old(lines)@[i])@ == info@)
            ==> final(lines)@ == old(lines)@,
        !(exists|i: int| 0 <= i < old(lines)@.len() && (#[trigger] old(lines)@[i])@ == info@)
            ==> exists|p: int| #[trigger] old(lines)@.insert(p, info) == final(lines)@ && 0 <= p
            <= old(lines)@.len(),
{
    let ghost l0 = lines@;
    let mut p: usize = 0;
    while p < lines.len() && line_precedes(&lines[p], &info)
        invariant
            lines@ == l0,
            p <= l0.len(),
            forall|i: int| 0 <= i < p ==> list_precedes((#[trigger] l0[i])@, info@),
        decreases l0.len() - p,
    {
        p = p + 1;
    }
    proof {
        assert forall|i: int| 0 <= i < p implies (#[trigger] l0[i])@ != info@ by {
            lemma_list_irreflexive(info@);
        }
    }
    if p < lines.len() && !line_precedes(&info, &lines[p]) {
        proof {
            lemma_list_total(l0[p as int]@, info@);
        }
        return ;
    }
    proof {
        assert forall|i: int| p <= i < l0.len() implies list_precedes(info@, (#[trigger] l0[i])@) by {
            if i > p {
                lemma_list_transitive(info@, l0[p as int]@, l0[i]@);
            }
        }
        assert forall|i: int| p <= i < l0.len() implies (#[trigger] l0[i])@ != info@ by {
            lemma_list_irreflexive(info@);
        }
    }
    lines.insert(p, info);
    proof {
        let l1 = lines@;
        assert(l0.insert(p as int, info) == l1);
        assert forall|i: int, j: int|
            #![trigger l1[i], l1[j]]
            0 <= i < j < l1.len() implies list_precedes(l1[i]@, l1[j]@) by {
            if i < p {
                assert(l1[i] == l0[i]);
                if j > p {
                    assert(l1[j] == l0[j - 1]);
                } else if j < p {
                    assert(l1[j] == l0[j]);
                }
            } else if i == p {
                assert(l1[j] == l0[j - 1]);
            } else {
                assert(l1[i] == l0[i - 1] && l1[j] == l0[j - 1]);
            }
        }
    }
}

/// Whether a list holds a line.
pub open spec fn has_line(lines: Seq<NamedLine>, names: Seq<Seq<char>>) -> bool {
    exists|i: int| 0 <= i < lines.len() && (#[trigger] lines[i])@ == names
}

/// In a list of lines no line stands twice.
pub proof fn lemma_lines_differ(lines: Seq<NamedLine>, i: int, j: int)
    requires
        is_line_list(lines),
        0 <= i < lines.len(),
        0 <= j < lines.len(),
        lines[i]@ == lines[j]@,
    ensures
        i == j,
{
    lemma_list_irreflexive(lines[i]@);
    if i < j {
        assert(list_precedes(lines[i]@, lines[j]@));
    } else if j < i {
        assert(list_precedes(lines[j]@, lines[i]@));
    }
}

/// The position of a line in a list.
pub fn find_line(lines: &Vec<NamedLine>, info: &NamedLine) -> (r: Option<usize>)
    requires
        is_line_list(lines@),
    ensures
        match r {
            Some(i) => i < lines@.len() && lines@[i as int]@ == info@,
            None => !has_line(lines@, info@),
        },
{
    let mut p: usize = 0;
    while p < lines.len() && line_precedes(&lines[p], info)
        invariant
            p <= lines@.len(),
            forall|i: int| 0 <= i < p ==> list_precedes((#[trigger] lines@[i])@, info@),
        decreases lines@.len() - p,
    {
        p = p + 1;
    }
    proof {
        lemma_list_irreflexive(info@);
    }
    if p < lines.len() && !line_precedes(info, &lines[p]) {
        proof {
            lemma_list_total(lines@[p as int]@, info@);
        }
        return Some(p);
    }
    proof {
        assert forall|i: int| p <= i < lines@.len() implies list_precedes(
            info@,
            (#[trigger] lines@[i])@,
        ) by {
            if i > p {
                lemma_list_transitive(info@, lines@[p as int]@, lines@[i]@);
            }
        }
    }
    None
}

/// A number of 32 bits is read from its digits.
pub proof fn lemma_signed_decimal(n: int)
    requires
        -0x7fff_ffff <= n <= 0x7fff_ffff,
    ensures
        crate::text::integer_of(signed_decimal(n)) == Some(n),
{
    reveal_strlit("-");
    if n < 0 {
        crate::text::lemma_number_is_read_back((-n) as nat);
        assert("-"@ =~= seq!['-']);
    } else {
        crate::text::lemma_number_is_read_back(n as nat);
    }
}

} // verus!
