//! The names of shapes.

use crate::mots::RouteType;
use crate::text::str_eq;
use std::collections::hash_map::DefaultHasher;
use std::hash::{Hash, Hasher};
use vstd::prelude::*;

verus! {

/// A decimal digit.
pub open spec fn digit(d: int) -> char {
    if d == 0 {
        '0'
    } else if d == 1 {
        '1'
    } else if d == 2 {
        '2'
    } else if d == 3 {
        '3'
    } else if d == 4 {
        '4'
    } else if d == 5 {
        '5'
    } else if d == 6 {
        '6'
    } else if d == 7 {
        '7'
    } else if d == 8 {
        '8'
    } else {
        '9'
    }
}

/// A number in decimal digits.
pub open spec fn decimal(n: nat) -> Seq<char>
    decreases n,
{
    if n < 10 {
        seq![digit(n as int)]
    } else {
        decimal(n / 10).push(digit((n % 10) as int))
    }
}

fn digit_str(d: u64) -> (r: &'static str)
    requires
        d < 10,
    ensures
        r@ == seq![digit(d as int)],
{
    proof {
        reveal_strlit("0");
        reveal_strlit("1");
        reveal_strlit("2");
        reveal_strlit("3");
        reveal_strlit("4");
        reveal_strlit("5");
        reveal_strlit("6");
        reveal_strlit("7");
        reveal_strlit("8");
        reveal_strlit("9");
    }
    let r = if d == 0 {
        "0"
    } else if d == 1 {
        "1"
    } else if d == 2 {
        "2"
    } else if d == 3 {
        "3"
    } else if d == 4 {
        "4"
    } else if d == 5 {
        "5"
    } else if d == 6 {
        "6"
    } else if d == 7 {
        "7"
    } else if d == 8 {
        "8"
    } else {
        "9"
    };
    assert(r@ =~= seq![digit(d as int)]);
    r
}

/// A number in decimal digits.
pub fn to_decimal(n: u64) -> (r: String)
    ensures
        r@ == decimal(n as nat),
    decreases n,
{
    if n < 10 {
        return digit_str(n).to_owned();
    }
    let head = to_decimal(n / 10);
    let r = head.concat(digit_str(n % 10));
    assert(r@ =~= decimal((n / 10) as nat).push(digit((n % 10) as int)));
    r
}

proof fn lemma_decimal_len(n: nat)
    ensures
        decimal(n).len() > 0,
        n >= 10 ==> decimal(n).len() > 1,
    decreases n,
{
    if n >= 10 {
        lemma_decimal_len(n / 10);
    }
}

proof fn lemma_digits_differ(a: int, b: int)
    requires
        0 <= a < 10,
        0 <= b < 10,
        digit(a) == digit(b),
    ensures
        a == b,
{
}

/// Different numbers have different digits.
pub proof fn lemma_decimal_injective(m: nat, n: nat)
    requires
        decimal(m) == decimal(n),
    ensures
        m == n,
    decreases m,
{
    lemma_decimal_len(m);
    lemma_decimal_len(n);
    if m < 10 && n < 10 {
        assert(decimal(m)[0] == digit(m as int));
        assert(decimal(n)[0] == digit(n as int));
        lemma_digits_differ(m as int, n as int);
    } else if m >= 10 && n >= 10 {
        assert(decimal(m).last() == digit((m % 10) as int));
        assert(decimal(n).last() == digit((n % 10) as int));
        lemma_digits_differ((m % 10) as int, (n % 10) as int);
        assert(decimal(m).drop_last() =~= decimal(m / 10));
        assert(decimal(n).drop_last() =~= decimal(n / 10));
        lemma_decimal_injective(m / 10, n / 10);
    }
}

/// Digits are no underscores.
proof fn lemma_decimal_plain(n: nat, i: int)
    requires
        0 <= i < decimal(n).len(),
    ensures
        decimal(n)[i] != '_',
    decreases n,
{
    if n >= 10 && i < decimal(n).len() - 1 {
        lemma_decimal_plain(n / 10, i);
    }
}

/// The name of a shape whose pattern has a hash.
pub open spec fn hashed_name(hash: u64) -> Seq<char> {
    "shape_"@ + decimal(hash as nat)
}

/// The name of a shape, from the hash of the pattern that it belongs to.
pub fn shape_id_for_hash(hash: u64) -> (r: String)
    ensures
        r@ == hashed_name(hash),
{
    "shape_".to_owned().concat(to_decimal(hash).as_str())
}

/// `Hash::hash` on a list of names. A hasher is fed numbers in the form that the machine has for them, so
/// nothing is said of what it holds afterwards.
#[verifier::external_body]
fn feed_names(names: &Vec<String>, hasher: &mut DefaultHasher) {
    names.hash(hasher)
}

/// `Hash::hash` on the type of a route, of which nothing is said either.
#[verifier::external_body]
fn feed_route_type(route_type: Option<RouteType>, hasher: &mut DefaultHasher) {
    route_type.hash(hasher)
}

/// The name of the shape of a pattern: that of a hash of the pattern. Which hash it is rests on the
/// machine and on the hasher.
pub fn shape_id_for_pattern(stop_ids: &Vec<String>, route_type: Option<RouteType>) -> (r: String)
    ensures
        exists|hash: u64| r@ == #[trigger] hashed_name(hash),
{
    let mut hasher = DefaultHasher::new();
    feed_names(stop_ids, &mut hasher);
    feed_route_type(route_type, &mut hasher);
    let hash: u64 = hasher.finish();
    shape_id_for_hash(hash)
}

/// How often a name occurs before a place in a list.
pub open spec fn earlier(ids: Seq<String>, k: int, id: Seq<char>) -> nat
    decreases k,
{
    if k <= 0 {
        0
    } else {
        earlier(ids, k - 1, id) + if ids[k - 1]@ == id {
            1nat
        } else {
            0
        }
    }
}

/// A name with a number behind it.
pub open spec fn numbered(id: Seq<char>, n: nat) -> Seq<char> {
    id + "_"@ + decimal(n)
}

/// The name at a place: as it is where it occurs first, else with the number of its occurrence.
pub open spec fn distinct_id(ids: Seq<String>, k: int) -> Seq<char> {
    let n = earlier(ids, k, ids[k]@);
    if n == 0 {
        ids[k]@
    } else {
        numbered(ids[k]@, n)
    }
}

/// Gives names that occur more than once numbers, but for their first occurrence.
pub fn deduplicate_shape_ids(ids: &Vec<String>) -> (r: Vec<String>)
    ensures
        r@.len() == ids@.len(),
        forall|k: int| #![trigger r@[k]] 0 <= k < r@.len() ==> r@[k]@ == distinct_id(ids@, k),
{
    let mut counts = crate::hashed::names_new();
    let mut r: Vec<String> = Vec::new();
    let mut k: usize = 0;
    while k < ids.len()
        invariant
            k <= ids@.len(),
            r@.len() == k,
            forall|j: int| #![trigger r@[j]] 0 <= j < k ==> r@[j]@ == distinct_id(ids@, j),
            forall|id: Seq<char>| #[trigger]
                crate::hashed::names_of(counts).contains_key(id) ==> crate::hashed::names_of(
                    counts,
                )[id] == earlier(ids@, k as int, id),
            forall|id: Seq<char>|
                #![trigger crate::hashed::names_of(counts).contains_key(id)]
                !crate::hashed::names_of(counts).contains_key(id) ==> earlier(ids@, k as int, id)
                    == 0,
            forall|id: Seq<char>| #[trigger] earlier(ids@, k as int, id) <= k,
        decreases ids@.len() - k,
    {
        let id = ids[k].as_str();
        let n: usize = match crate::hashed::names_get(&counts, id) {
            Some(c) => c,
            None => 0,
        };
        assert(n == earlier(ids@, k as int, id@)) by {
            assert(crate::hashed::names_of(counts).contains_key(id@)
                || !crate::hashed::names_of(counts).contains_key(id@));
        }
        let name = if n == 0 {
            ids[k].clone()
        } else {
            ids[k].clone().concat("_").concat(to_decimal(n as u64).as_str())
        };
        r.push(name);
        let ghost before = crate::hashed::names_of(counts);
        crate::hashed::names_insert(&mut counts, ids[k].clone(), n + 1);
        proof {
            assert forall|x: Seq<char>| #[trigger] earlier(ids@, k + 1, x) <= k + 1 by {
                assert(earlier(ids@, k as int, x) <= k);
            }
            assert forall|x: Seq<char>| #[trigger]
                crate::hashed::names_of(counts).contains_key(x) implies crate::hashed::names_of(
                counts,
            )[x] == earlier(ids@, k + 1, x) by {
                if x != id@ {
                    assert(before.contains_key(x));
                }
            }
            assert forall|x: Seq<char>|
                #![trigger crate::hashed::names_of(counts).contains_key(x)]
                !crate::hashed::names_of(counts).contains_key(x) implies earlier(ids@, k + 1, x)
                == 0 by {
                assert(!before.contains_key(x));
            }
        }
        k = k + 1;
    }
    r
}

proof fn lemma_earlier_grows(ids: Seq<String>, i: int, j: int)
    requires
        0 <= i < j <= ids.len(),
    ensures
        earlier(ids, i, ids[i]@) < earlier(ids, j, ids[i]@),
    decreases j,
{
    if i < j - 1 {
        lemma_earlier_grows(ids, i, j - 1);
    }
}

/// Names with numbers behind them are equal only if names and numbers are.
proof fn lemma_numbered_injective(a: Seq<char>, m: nat, b: Seq<char>, n: nat)
    requires
        numbered(a, m) == numbered(b, n),
    ensures
        a == b,
        m == n,
{
    reveal_strlit("_");
    let x = numbered(a, m);
    let y = numbered(b, n);
    let d = decimal(m);
    let e = decimal(n);
    assert(x.len() == a.len() + 1 + d.len());
    assert(y.len() == b.len() + 1 + e.len());
    assert(x[a.len() as int] == '_');
    assert(y[b.len() as int] == '_');
    if a.len() < b.len() {
        let i = b.len() - a.len() - 1;
        lemma_decimal_len(n);
        assert(x[b.len() as int] == d[i]);
        lemma_decimal_plain(m, i);
    } else if b.len() < a.len() {
        let i = a.len() - b.len() - 1;
        lemma_decimal_len(m);
        assert(y[a.len() as int] == e[i]);
        lemma_decimal_plain(n, i);
    }
    assert(x.take(a.len() as int) =~= a);
    assert(y.take(b.len() as int) =~= b);
    assert(x.skip((a.len() + 1) as int) =~= d);
    assert(y.skip((b.len() + 1) as int) =~= e);
    lemma_decimal_injective(m, n);
}

/// No name is given twice, unless one of the names looks like another one with a number behind it.
pub proof fn lemma_ids_distinct(ids: Seq<String>, i: int, j: int)
    requires
        0 <= i < j < ids.len(),
        forall|a: int, b: int, n: nat|
            #![trigger ids[a], numbered(ids[b]@, n)]
            0 <= a < ids.len() && 0 <= b < ids.len() ==> ids[a]@ != numbered(ids[b]@, n),
    ensures
        distinct_id(ids, i) != distinct_id(ids, j),
{
    let m = earlier(ids, i, ids[i]@);
    let n = earlier(ids, j, ids[j]@);
    if ids[i]@ == ids[j]@ {
        lemma_earlier_grows(ids, i, j);
        if m > 0 && numbered(ids[i]@, m) == numbered(ids[j]@, n) {
            lemma_numbered_injective(ids[i]@, m, ids[j]@, n);
        }
        if m == 0 {
            assert(ids[i]@ != numbered(ids[j]@, n));
        }
    } else {
        if m > 0 && n > 0 && numbered(ids[i]@, m) == numbered(ids[j]@, n) {
            lemma_numbered_injective(ids[i]@, m, ids[j]@, n);
        }
        if m == 0 {
            assert(ids[i]@ != numbered(ids[j]@, n));
        }
        if n == 0 {
            assert(ids[j]@ != numbered(ids[i]@, m));
        }
    }
}

/// The digits of a number, read from the left, give the number, and do not begin with a nought unless it is
/// nought.
pub proof fn lemma_decimal_is_read_back(n: nat)
    ensures
        decimal(n).fold_left(0int, |v: int, c: char| 10 * v + (c as int - '0' as int)) == n,
        forall|i: int| 0 <= i < decimal(n).len() ==> '0' <= #[trigger] decimal(n)[i] <= '9',
        decimal(n).len() > 0,
        n > 0 ==> decimal(n)[0] != '0',
    decreases n,
{
    let f = |v: int, c: char| 10 * v + (c as int - '0' as int);
    let s = decimal(n);
    if n < 10 {
        assert(s.drop_last() =~= Seq::<char>::empty());
        assert(s.last() == digit(n as int));
        assert(s.drop_last().fold_left(0int, f) == 0);
        assert(s.fold_left(0int, f) == f(0, s.last()));
    } else {
        lemma_decimal_is_read_back(n / 10);
        assert(s.drop_last() =~= decimal(n / 10));
        assert(s.fold_left(0int, f) == f(s.drop_last().fold_left(0int, f), s.last()));
        assert forall|i: int| 0 <= i < s.len() implies '0' <= #[trigger] s[i] <= '9' by {
            if i < s.len() - 1 {
                assert(s[i] == decimal(n / 10)[i]);
            }
        }
        assert(s[0] == decimal(n / 10)[0]);
    }
}

} // verus!
