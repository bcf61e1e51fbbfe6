//! The tags of map objects.

use crate::text::str_eq;
use vstd::prelude::*;

verus! {

/// Keys with their values. If a key occurs more than once, its first value counts.
#[derive(Debug)]
pub struct Tags {
    pub entries: Vec<(String, String)>,
}

/// The value of a key in a list of keys and values.
pub open spec fn lookup(entries: Seq<(String, String)>, key: Seq<char>) -> Option<Seq<char>>
    decreases entries.len(),
{
    if entries.len() == 0 {
        None
    } else {
        match lookup(entries.drop_last(), key) {
            Some(v) => Some(v),
            None => if entries.last().0@ == key {
                Some(entries.last().1@)
            } else {
                None
            },
        }
    }
}

proof fn lemma_lookup_prefix(entries: Seq<(String, String)>, i: int, key: Seq<char>)
    requires
        0 <= i <= entries.len(),
        lookup(entries.take(i), key) is Some,
    ensures
        lookup(entries, key) == lookup(entries.take(i), key),
    decreases entries.len(),
{
    if i < entries.len() {
        assert(entries.drop_last().take(i) =~= entries.take(i));
        lemma_lookup_prefix(entries.drop_last(), i, key);
    } else {
        assert(entries.take(i) =~= entries);
    }
}

proof fn lemma_lookup_same(a: Seq<(String, String)>, b: Seq<(String, String)>, key: Seq<char>)
    requires
        a.len() == b.len(),
        forall|j: int|
            #![trigger a[j]]
            0 <= j < a.len() ==> a[j].0@ == b[j].0@ && a[j].1@ == b[j].1@,
    ensures
        lookup(a, key) == lookup(b, key),
    decreases a.len(),
{
    if a.len() > 0 {
        let n = a.len() - 1;
        assert(a[n].0@ == b[n].0@);
        assert forall|j: int|
            #![trigger a.drop_last()[j]]
            0 <= j < n implies a.drop_last()[j].0@ == b.drop_last()[j].0@ && a.drop_last()[j].1@
            == b.drop_last()[j].1@ by {
            assert(a[j].0@ == b[j].0@);
        }
        lemma_lookup_same(a.drop_last(), b.drop_last(), key);
    }
}

/// A key that is given another value where it stands first has that value, and no other key changes.
proof fn lemma_lookup_update(
    entries: Seq<(String, String)>,
    i: int,
    entry: (String, String),
    key: Seq<char>,
)
    requires
        0 <= i < entries.len(),
        entries[i].0@ == entry.0@,
        lookup(entries.take(i), entry.0@) is None,
    ensures
        lookup(entries.update(i, entry), key) == (if key == entry.0@ {
            Some(entry.1@)
        } else {
            lookup(entries, key)
        }),
    decreases entries.len(),
{
    let after = entries.update(i, entry);
    let rest = entries.drop_last();
    if i < rest.len() {
        assert(after.drop_last() =~= rest.update(i, entry));
        assert(rest.take(i) =~= entries.take(i));
        lemma_lookup_update(rest, i, entry, key);
    } else {
        assert(after.drop_last() =~= rest);
        assert(rest =~= entries.take(i));
    }
}

impl Tags {
    /// The value of a key.
    pub open spec fn val(&self, key: Seq<char>) -> Option<Seq<char>> {
        lookup(self.entries@, key)
    }

    /// Whether a key has this value.
    pub open spec fn has(&self, key: Seq<char>, a: Seq<char>) -> bool {
        self.val(key) == Some(a)
    }

    /// Whether a key has one of two values.
    pub open spec fn has2(&self, key: Seq<char>, a: Seq<char>, b: Seq<char>) -> bool {
        self.has(key, a) || self.has(key, b)
    }

    /// Whether a key has one of three values.
    pub open spec fn has3(&self, key: Seq<char>, a: Seq<char>, b: Seq<char>, c: Seq<char>) -> bool {
        self.has2(key, a, b) || self.has(key, c)
    }

    /// Whether a key has one of four values.
    pub open spec fn has4(
        &self,
        key: Seq<char>,
        a: Seq<char>,
        b: Seq<char>,
        c: Seq<char>,
        d: Seq<char>,
    ) -> bool {
        self.has2(key, a, b) || self.has2(key, c, d)
    }

    /// Whether a key has one of five values.
    pub open spec fn has5(
        &self,
        key: Seq<char>,
        a: Seq<char>,
        b: Seq<char>,
        c: Seq<char>,
        d: Seq<char>,
        e: Seq<char>,
    ) -> bool {
        self.has4(key, a, b, c, d) || self.has(key, e)
    }

    /// No tags.
    pub fn new() -> (r: Self)
        ensures
            r.entries@.len() == 0,
            forall|k: Seq<char>| #[trigger] r.val(k) is None,
    {
        Tags { entries: Vec::new() }
    }

    /// Gives a key a value, in place of one that it had.
    pub fn insert(&mut self, key: String, value: String)
        ensures
            forall|k: Seq<char>| #[trigger]
                final(self).val(k) == (if k == key@ {
                    Some(value@)
                } else {
                    old(self).val(k)
                }),
    {
        let ghost before = self.entries@;
        let mut i: usize = 0;
        while i < self.entries.len()
            invariant
                i <= self.entries@.len(),
                self.entries@ == before,
                before == old(self).entries@,
                lookup(before.take(i as int), key@) is None,
            decreases self.entries@.len() - i,
        {
            assert(before.take(i + 1).drop_last() =~= before.take(i as int));
            if str_eq(self.entries[i].0.as_str(), key.as_str()) {
                let ghost entry = (key, value);
                self.entries.set(i, (key, value));
                assert forall|k: Seq<char>| #[trigger] self.val(k) == (if k == key@ {
                    Some(value@)
                } else {
                    lookup(before, k)
                }) by {
                    lemma_lookup_update(before, i as int, entry, k);
                }
                return ;
            }
            i = i + 1;
        }
        assert(before.take(i as int) =~= before);
        self.entries.push((key, value));
        assert(self.entries@.drop_last() =~= before);
    }

    /// The same tags once more.
    pub fn copy(&self) -> (r: Self)
        ensures
            forall|k: Seq<char>| #[trigger] r.val(k) == self.val(k),
    {
        let mut r = Tags::new();
        let mut i: usize = 0;
        while i < self.entries.len()
            invariant
                i <= self.entries@.len(),
                r.entries@.len() == i,
                forall|j: int|
                    #![trigger r.entries@[j]]
                    0 <= j < i ==> r.entries@[j].0@ == self.entries@[j].0@ && r.entries@[j].1@
                        == self.entries@[j].1@,
            decreases self.entries@.len() - i,
        {
            let e = &self.entries[i];
            r.entries.push((e.0.clone(), e.1.clone()));
            i = i + 1;
        }
        assert forall|k: Seq<char>| #[trigger] r.val(k) == self.val(k) by {
            lemma_lookup_same(r.entries@, self.entries@, k);
        }
        r
    }

    /// The value of a key.
    pub fn get(&self, key: &str) -> (r: Option<&String>)
        ensures
            match r {
                Some(v) => self.val(key@) == Some(v@),
                None => self.val(key@) is None,
            },
    {
        let mut i: usize = 0;
        while i < self.entries.len()
            invariant
                i <= self.entries@.len(),
                lookup(self.entries@.take(i as int), key@) is None,
            decreases self.entries@.len() - i,
        {
            assert(self.entries@.take(i + 1).drop_last() =~= self.entries@.take(i as int));
            if str_eq(self.entries[i].0.as_str(), key) {
                proof {
                    lemma_lookup_prefix(self.entries@, i + 1, key@);
                }
                return Some(&self.entries[i].1);
            }
            i = i + 1;
        }
        assert(self.entries@.take(i as int) =~= self.entries@);
        None
    }

    /// Whether a key has a value.
    pub fn contains_key(&self, key: &str) -> (r: bool)
        ensures
            r == (self.val(key@) is Some),
    {
        self.get(key).is_some()
    }

    /// Whether a key has this value.
    pub fn is(&self, key: &str, a: &str) -> (r: bool)
        ensures
            r == self.has(key@, a@),
    {
        match self.get(key) {
            Some(v) => str_eq(v.as_str(), a),
            None => false,
        }
    }

    /// Whether a key has one of two values.
    pub fn is2(&self, key: &str, a: &str, b: &str) -> (r: bool)
        ensures
            r == self.has2(key@, a@, b@),
    {
        match self.get(key) {
            Some(v) => str_eq(v.as_str(), a) || str_eq(v.as_str(), b),
            None => false,
        }
    }

    /// Whether a key has one of three values.
    pub fn is3(&self, key: &str, a: &str, b: &str, c: &str) -> (r: bool)
        ensures
            r == self.has3(key@, a@, b@, c@),
    {
        self.is2(key, a, b) || self.is(key, c)
    }

    /// Whether a key has one of four values.
    pub fn is4(&self, key: &str, a: &str, b: &str, c: &str, d: &str) -> (r: bool)
        ensures
            r == self.has4(key@, a@, b@, c@, d@),
    {
        self.is2(key, a, b) || self.is2(key, c, d)
    }

    /// Whether a key has one of five values.
    pub fn is5(&self, key: &str, a: &str, b: &str, c: &str, d: &str, e: &str) -> (r: bool)
        ensures
            r == self.has5(key@, a@, b@, c@, d@, e@),
    {
        self.is4(key, a, b, c, d) || self.is(key, e)
    }
}

/// A key has the value of the first entry with it, and none if there is no such entry.
pub proof fn lemma_first_entry_counts(t: Tags, key: Seq<char>)
    ensures
        match t.val(key) {
            Some(v) => exists|i: int|
                0 <= i < t.entries@.len() && (#[trigger] t.entries@[i]).0@ == key
                    && t.entries@[i].1@ == v && forall|j: int|
                    0 <= j < i ==> (#[trigger] t.entries@[j]).0@ != key,
            None => forall|j: int| 0 <= j < t.entries@.len() ==> (#[trigger] t.entries@[j]).0@ != key,
        },
{
    lemma_first_of(t.entries@, key);
}

proof fn lemma_first_of(entries: Seq<(String, String)>, key: Seq<char>)
    ensures
        match lookup(entries, key) {
            Some(v) => exists|i: int|
                0 <= i < entries.len() && (#[trigger] entries[i]).0@ == key && entries[i].1@ == v
                    && forall|j: int| 0 <= j < i ==> (#[trigger] entries[j]).0@ != key,
            None => forall|j: int| 0 <= j < entries.len() ==> (#[trigger] entries[j]).0@ != key,
        },
    decreases entries.len(),
{
    if entries.len() > 0 {
        let rest = entries.drop_last();
        lemma_first_of(rest, key);
        match lookup(rest, key) {
            Some(v) => {
                let i = choose|i: int|
                    0 <= i < rest.len() && (#[trigger] rest[i]).0@ == key && rest[i].1@ == v && forall|
                        j: int,
                    |
                        0 <= j < i ==> (#[trigger] rest[j]).0@ != key;
                assert(entries[i].0@ == key && entries[i].1@ == v);
                assert forall|j: int| 0 <= j < i implies (#[trigger] entries[j]).0@ != key by {
                    assert(rest[j].0@ != key);
                }
            },
            None => {
                let n = entries.len() - 1;
                assert forall|j: int| 0 <= j < n implies (#[trigger] entries[j]).0@ != key by {
                    assert(rest[j].0@ != key);
                }
                assert(entries[n] == entries.last());
            },
        }
    }
}

} // verus!
