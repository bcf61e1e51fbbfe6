//! Strings: the parts of std that Verus has no contract for, and searches on bytes.

use vstd::prelude::*;

verus! {

/// Whether `needle` stands somewhere in `hay`.
pub open spec fn occurs_in(hay: Seq<char>, needle: Seq<char>) -> bool {
    exists|i: int|
        0 <= i <= hay.len() - needle.len() && #[trigger] hay.subrange(i, i + needle.len())
            == needle
}

/// What `str::to_lowercase` makes of a string.
pub uninterp spec fn lowercase_of(s: Seq<char>) -> Seq<char>;

/// `str::to_lowercase`: the string with its letters in lower case, as Unicode defines it.
#[verifier::external_body]
pub(crate) fn to_lowercase(s: &str) -> (r: String)
    ensures
        r@ == lowercase_of(s@),
{
    s.to_lowercase()
}

/// Whether `part` stands at position `at` of `hay`.
fn stands_at(hay: &Vec<char>, part: &Vec<char>, at: usize) -> (r: bool)
    requires
        at + part@.len() <= hay@.len(),
    ensures
        r == (hay@.subrange(at as int, at + part@.len()) == part@),
{
    let room: usize = hay.len();
    let mut j: usize = 0;
    while j < part.len()
        invariant
            room == hay@.len(),
            at + part@.len() <= room,
            j <= part@.len(),
            forall|k: int| #![trigger part@[k]] 0 <= k < j ==> hay@[at + k] == part@[k],
        decreases part@.len() - j,
    {
        if hay[at + j] != part[j] {
            assert(hay@.subrange(at as int, at + part@.len())[j as int] != part@[j as int]);
            return false;
        }
        j = j + 1;
    }
    assert(hay@.subrange(at as int, at + part@.len()) =~= part@);
    true
}

/// Whether the second string is a part of the first.
pub fn contains_str(s: &str, part: &str) -> (r: bool)
    ensures
        r == occurs_in(s@, part@),
{
    let hay = chars_of(s);
    let needle = chars_of(part);
    if needle.len() > hay.len() {
        return false;
    }
    let last: usize = hay.len() - needle.len();
    let mut i: usize = 0;
    loop
        invariant
            hay@ == s@,
            needle@ == part@,
            last + needle@.len() == hay@.len(),
            i <= last,
            forall|k: int|
                0 <= k < i ==> #[trigger] hay@.subrange(k, k + needle@.len()) != needle@,
        decreases last - i,
    {
        if stands_at(&hay, &needle, i) {
            assert(s@.subrange(i as int, i + part@.len()) == part@);
            return true;
        }
        if i == last {
            return false;
        }
        i = i + 1;
    }
}

/// A byte with `A` to `Z` turned into `a` to `z`.
pub open spec fn ascii_lower(c: u8) -> u8 {
    if 65 <= c <= 90 {
        (c + 32) as u8
    } else {
        c
    }
}

/// Whether `target` stands at `at` in `corpus` once the letters of `corpus` are in lower case.
pub open spec fn matches_at(corpus: Seq<u8>, target: Seq<u8>, at: int) -> bool {
    forall|j: int| 0 <= j < target.len() ==> ascii_lower(#[trigger] corpus[at + j]) == target[j]
}

/// Whether `target` stands somewhere in `corpus` once the letters of `corpus` are in lower case.
pub open spec fn occurs_ignore_case(corpus: Seq<u8>, target: Seq<u8>) -> bool {
    exists|at: int|
        0 <= at <= corpus.len() - target.len() && #[trigger] matches_at(corpus, target, at)
}

/// Whether `target_lower` stands in `corpus`, ASCII capitals of `corpus` counting as small letters.
pub fn contains_ignore_case(corpus: &str, target_lower: &str) -> (r: bool)
    ensures
        r == occurs_ignore_case(vstd::utf8::encode_utf8(corpus@), vstd::utf8::encode_utf8(target_lower@)),
{
    let target = target_lower.as_bytes();
    let bytes = corpus.as_bytes();
    if target.len() == 0 {
        assert(matches_at(bytes@, target@, 0));
        return true;
    }
    if bytes.len() < target.len() {
        return false;
    }
    let last: usize = bytes.len() - target.len();
    let mut i: usize = 0;
    loop
        invariant
            i <= last,
            last + target.len() == bytes.len(),
            bytes@ == vstd::utf8::encode_utf8(corpus@),
            target@ == vstd::utf8::encode_utf8(target_lower@),
            forall|at: int| 0 <= at < i ==> !#[trigger] matches_at(bytes@, target@, at),
        decreases last - i,
    {
        let mut found = true;
        let mut j: usize = 0;
        while j < target.len()
            invariant_except_break
                found,
                forall|k: int| 0 <= k < j ==> ascii_lower(#[trigger] bytes@[i + k]) == target@[k],
            invariant
                i <= last,
                last + target.len() == bytes.len(),
                j <= target@.len(),
            ensures
                found <==> matches_at(bytes@, target@, i as int),
            decreases target@.len() - j,
        {
            let c: u8 = bytes[i + j];
            let shift: u8 = if c >= 65 && c <= 90 { c + 32 } else { c };
            if shift != target[j] {
                found = false;
                assert(ascii_lower(bytes@[i + j]) != target@[j as int]);
                break ;
            }
            j = j + 1;
        }
        if found {
            return true;
        }
        if i == last {
            return false;
        }
        i = i + 1;
    }
}

/// Whether two strings are equal.
pub fn str_eq(a: &str, b: &str) -> (r: bool)
    ensures
        r == (a@ == b@),
{
    let x = a.as_bytes();
    let y = b.as_bytes();
    proof {
        vstd::utf8::encode_utf8_decode_utf8(a@);
        vstd::utf8::encode_utf8_decode_utf8(b@);
    }
    if x.len() != y.len() {
        return false;
    }
    let mut i: usize = 0;
    while i < x.len()
        invariant
            i <= x@.len(),
            x@.len() == y@.len(),
            x@ == vstd::utf8::encode_utf8(a@),
            y@ == vstd::utf8::encode_utf8(b@),
            forall|j: int| 0 <= j < i ==> x@[j] == y@[j],
        decreases x@.len() - i,
    {
        if x[i] != y[i] {
            return false;
        }
        i = i + 1;
    }
    assert(x@ =~= y@);
    true
}

/// The characters of a string.
pub fn chars_of(s: &str) -> (r: Vec<char>)
    ensures
        r@ == s@,
{
    let mut r: Vec<char> = Vec::new();
    for c in it: s.chars()
        invariant
            r@ == s@.take(it.index() as int),
            it.seq() == s@,
    {
        proof {
            assert(s@.take(it.index() + 1) =~= s@.take(it.index() as int).push(c));
        }
        r.push(c);
    }
    assert(s@.take(s@.len() as int) =~= s@);
    r
}

/// A character with `A` to `Z` turned into `a` to `z`.
pub open spec fn lower_char(c: char) -> char {
    if 'A' <= c <= 'Z' {
        ((c as u32) + 32) as char
    } else {
        c
    }
}

/// Whether two strings are equal once ASCII capitals are turned into small letters.
pub open spec fn same_ignore_case(a: Seq<char>, b: Seq<char>) -> bool {
    a.len() == b.len() && forall|i: int|
        0 <= i < a.len() ==> lower_char(#[trigger] a[i]) == lower_char(b[i])
}

fn to_lower_char(c: char) -> (r: char)
    ensures
        r == lower_char(c),
{
    match c {
        'A' => 'a',
        'B' => 'b',
        'C' => 'c',
        'D' => 'd',
        'E' => 'e',
        'F' => 'f',
        'G' => 'g',
        'H' => 'h',
        'I' => 'i',
        'J' => 'j',
        'K' => 'k',
        'L' => 'l',
        'M' => 'm',
        'N' => 'n',
        'O' => 'o',
        'P' => 'p',
        'Q' => 'q',
        'R' => 'r',
        'S' => 's',
        'T' => 't',
        'U' => 'u',
        'V' => 'v',
        'W' => 'w',
        'X' => 'x',
        'Y' => 'y',
        'Z' => 'z',
        _ => c,
    }
}

/// Whether the part of `a` from `from` on begins with `b`, ASCII letter case aside.
fn part_matches(a: &Vec<char>, from: usize, b: &Vec<char>) -> (r: bool)
    requires
        from + b@.len() <= a@.len(),
    ensures
        r == same_ignore_case(a@.subrange(from as int, from + b@.len()), b@),
{
    let ghost part = a@.subrange(from as int, from + b@.len());
    let mut i: usize = 0;
    while i < b.len()
        invariant
            i <= b@.len(),
            from + b.len() <= a.len(),
            part == a@.subrange(from as int, from + b@.len()),
            forall|j: int| 0 <= j < i ==> lower_char(#[trigger] part[j]) == lower_char(b@[j]),
        decreases b@.len() - i,
    {
        let x: char = a[from + i];
        assert(part[i as int] == x);
        if to_lower_char(x) != to_lower_char(b[i]) {
            return false;
        }
        i = i + 1;
    }
    true
}

/// Whether two strings are equal, ASCII letter case aside.
pub fn eq_ignore_ascii_case(a: &str, b: &str) -> (r: bool)
    ensures
        r == same_ignore_case(a@, b@),
{
    let x = chars_of(a);
    let y = chars_of(b);
    if x.len() != y.len() {
        return false;
    }
    assert(x@.subrange(0, y@.len() as int) =~= a@);
    part_matches(&x, 0, &y)
}

/// The characters that Unicode counts as white space.
pub open spec fn is_space(c: char) -> bool {
    let u = c as u32;
    ||| 0x9 <= u <= 0xd
    ||| u == 0x20
    ||| u == 0x85
    ||| u == 0xa0
    ||| u == 0x1680
    ||| 0x2000 <= u <= 0x200a
    ||| u == 0x2028
    ||| u == 0x2029
    ||| u == 0x202f
    ||| u == 0x205f
    ||| u == 0x3000
}

/// Whether Unicode counts the character as white space.
pub fn is_whitespace(c: char) -> (r: bool)
    ensures
        r == is_space(c),
{
    let u: u32 = c as u32;
    (u >= 0x9 && u <= 0xd) || u == 0x20 || u == 0x85 || u == 0xa0 || u == 0x1680 || (u >= 0x2000
        && u <= 0x200a) || u == 0x2028 || u == 0x2029 || u == 0x202f || u == 0x205f || u == 0x3000
}

/// Whether the character is an ASCII letter or digit.
pub open spec fn is_alnum(c: char) -> bool {
    ('0' <= c <= '9') || ('A' <= c <= 'Z') || ('a' <= c <= 'z')
}

/// The ASCII letters and digits of a string, in lower case.
pub open spec fn compact(s: Seq<char>) -> Seq<char>
    decreases s.len(),
{
    if s.len() == 0 {
        Seq::empty()
    } else {
        let rest = compact(s.drop_last());
        if is_alnum(s.last()) {
            rest.push(lower_char(s.last()))
        } else {
            rest
        }
    }
}

fn compact_of(s: &Vec<char>) -> (r: Vec<char>)
    ensures
        r@ == compact(s@),
{
    let mut r: Vec<char> = Vec::new();
    let mut i: usize = 0;
    assert(s@.take(0) =~= Seq::<char>::empty());
    while i < s.len()
        invariant
            i <= s@.len(),
            r@ == compact(s@.take(i as int)),
        decreases s@.len() - i,
    {
        let c: char = s[i];
        proof {
            assert(s@.take(i + 1).drop_last() =~= s@.take(i as int));
        }
        if (c >= '0' && c <= '9') || (c >= 'A' && c <= 'Z') || (c >= 'a' && c <= 'z') {
            r.push(to_lower_char(c));
        }
        i = i + 1;
    }
    assert(s@.take(i as int) =~= s@);
    r
}

fn same_chars(a: &Vec<char>, b: &Vec<char>) -> (r: bool)
    ensures
        r == (a@ == b@),
{
    if a.len() != b.len() {
        return false;
    }
    let mut i: usize = 0;
    while i < a.len()
        invariant
            i <= a@.len(),
            a@.len() == b@.len(),
            forall|j: int| 0 <= j < i ==> a@[j] == b@[j],
        decreases a@.len() - i,
    {
        if a[i] != b[i] {
            return false;
        }
        i = i + 1;
    }
    assert(a@ =~= b@);
    true
}

/// Whether two names have the same letters and digits, and have any.
pub open spec fn compact_same(a: Seq<char>, b: Seq<char>) -> bool {
    compact(a).len() > 0 && compact(a) == compact(b)
}

/// Whether `longer` begins with the word `shorter`: white space follows, and it is not a single
/// byte at the very end.
pub open spec fn word_first(longer: Seq<char>, shorter: Seq<char>) -> bool {
    let n = shorter.len() as int;
    &&& longer.len() > n
    &&& same_ignore_case(longer.subrange(0, n), shorter)
    &&& is_space(longer[n])
    &&& longer.len() > n + 1 || longer[n] as u32 >= 0x80
}

/// Whether `longer` ends with the word `shorter`: white space stands before it, and it is not a
/// single byte at the very beginning.
pub open spec fn word_last(longer: Seq<char>, shorter: Seq<char>) -> bool {
    let k = longer.len() - shorter.len();
    &&& k > 0
    &&& same_ignore_case(longer.subrange(k, longer.len() as int), shorter)
    &&& is_space(longer[k - 1])
    &&& k > 1 || longer[0] as u32 >= 0x80
}

fn begins_with_word(longer: &Vec<char>, shorter: &Vec<char>) -> (r: bool)
    ensures
        r == word_first(longer@, shorter@),
{
    let n: usize = shorter.len();
    if longer.len() <= n {
        return false;
    }
    let next: char = longer[n];
    if longer.len() - n == 1 && (next as u32) < 0x80 {
        return false;
    }
    part_matches(longer, 0, shorter) && is_whitespace(next)
}

fn ends_with_word(longer: &Vec<char>, shorter: &Vec<char>) -> (r: bool)
    ensures
        r == word_last(longer@, shorter@),
{
    if longer.len() <= shorter.len() {
        return false;
    }
    let k: usize = longer.len() - shorter.len();
    let before: char = longer[k - 1];
    if k == 1 && (before as u32) < 0x80 {
        return false;
    }
    part_matches(longer, k, shorter) && is_whitespace(before)
}

/// Whether two names stand for the same line: they are equal letter case aside, they have the
/// same letters and digits, or one is a word at the beginning or the end of the other.
pub open spec fn similar_lines(a: Seq<char>, b: Seq<char>) -> bool {
    ||| same_ignore_case(a, b)
    ||| a.len() > 0 && b.len() > 0 && {
        ||| compact_same(a, b)
        ||| word_first(a, b)
        ||| word_last(a, b)
        ||| word_first(b, a)
        ||| word_last(b, a)
    }
}

/// Whether two names stand for the same line.
pub fn line_simi(a: &str, b: &str) -> (r: bool)
    ensures
        r == similar_lines(a@, b@),
{
    if eq_ignore_ascii_case(a, b) {
        return true;
    }
    if a.is_empty() || b.is_empty() {
        return false;
    }
    let x = chars_of(a);
    let y = chars_of(b);
    let cx = compact_of(&x);
    let cy = compact_of(&y);
    (cx.len() > 0 && same_chars(&cx, &cy)) || begins_with_word(&x, &y) || ends_with_word(&x, &y)
        || begins_with_word(&y, &x) || ends_with_word(&y, &x)
}

/// Whether two names stand for the same line does not depend on their order.
pub proof fn lemma_similar_lines_symmetric(a: Seq<char>, b: Seq<char>)
    ensures
        similar_lines(a, b) == similar_lines(b, a),
{
    assert(same_ignore_case(a, b) == same_ignore_case(b, a)) by {
        if same_ignore_case(a, b) {
            assert forall|i: int| 0 <= i < b.len() implies lower_char(#[trigger] b[i])
                == lower_char(a[i]) by {
                assert(lower_char(a[i]) == lower_char(b[i]));
            }
        }
        if same_ignore_case(b, a) {
            assert forall|i: int| 0 <= i < a.len() implies lower_char(#[trigger] a[i])
                == lower_char(b[i]) by {
                assert(lower_char(b[i]) == lower_char(a[i]));
            }
        }
    }
}

/// The parts of a string between separators.
pub open spec fn split_on(s: Seq<char>, sep: char) -> Seq<Seq<char>>
    decreases s.len(),
{
    if s.len() == 0 {
        seq![Seq::empty()]
    } else {
        let rest = split_on(s.drop_last(), sep);
        if s.last() == sep {
            rest.push(Seq::empty())
        } else {
            rest.drop_last().push(rest.last().push(s.last()))
        }
    }
}

/// A string without the white space at its ends.
pub open spec fn trimmed(s: Seq<char>) -> Seq<char>
    decreases s.len(),
{
    if s.len() == 0 {
        s
    } else if is_space(s.first()) {
        trimmed(s.drop_first())
    } else if is_space(s.last()) {
        trimmed(s.drop_last())
    } else {
        s
    }
}

fn trim_range<'a>(s: &'a str, chars: &Vec<char>, from: usize, to: usize) -> (r: &'a str)
    requires
        chars@ == s@,
        from <= to <= s@.len(),
    ensures
        r@ == trimmed(s@.subrange(from as int, to as int)),
{
    let mut a: usize = from;
    let mut b: usize = to;
    while a < b && is_whitespace(chars[a])
        invariant
            chars@ == s@,
            from <= a <= b,
            b == to,
            to <= s@.len(),
            trimmed(s@.subrange(from as int, to as int)) == trimmed(
                s@.subrange(a as int, b as int),
            ),
        decreases b - a,
    {
        assert(s@.subrange(a as int, b as int).drop_first() =~= s@.subrange(a + 1, b as int));
        a = a + 1;
    }
    while a < b && is_whitespace(chars[b - 1])
        invariant
            chars@ == s@,
            from <= a <= b <= to,
            to <= s@.len(),
            a < b ==> !is_space(s@[a as int]),
            trimmed(s@.subrange(from as int, to as int)) == trimmed(
                s@.subrange(a as int, b as int),
            ),
        decreases b - a,
    {
        assert(s@.subrange(a as int, b as int).drop_last() =~= s@.subrange(a as int, b - 1));
        b = b - 1;
    }
    s.substring_char(a, b)
}

/// The parts of a string between separators, without the white space at their ends.
pub fn split_trimmed<'a>(s: &'a str, sep: char) -> (r: Vec<&'a str>)
    ensures
        r@.len() == split_on(s@, sep).len(),
        forall|i: int|
            #![trigger r@[i]]
            0 <= i < r@.len() ==> r@[i]@ == trimmed(split_on(s@, sep)[i]),
{
    let chars = chars_of(s);
    let mut r: Vec<&'a str> = Vec::new();
    let mut start: usize = 0;
    let mut i: usize = 0;
    proof {
        assert(s@.take(0) =~= Seq::<char>::empty());
        assert(s@.subrange(0, 0) =~= Seq::<char>::empty());
    }
    while i < chars.len()
        invariant
            chars@ == s@,
            start <= i <= s@.len(),
            split_on(s@.take(i as int), sep).len() == r@.len() + 1,
            split_on(s@.take(i as int), sep).last() == s@.subrange(start as int, i as int),
            forall|k: int|
                #![trigger r@[k]]
                0 <= k < r@.len() ==> r@[k]@ == trimmed(split_on(s@.take(i as int), sep)[k]),
        decreases s@.len() - i,
    {
        proof {
            assert(s@.take(i + 1).drop_last() =~= s@.take(i as int));
            assert(s@.subrange(start as int, i + 1) =~= s@.subrange(start as int, i as int).push(
                s@[i as int],
            ));
            assert(s@.subrange(i + 1, i + 1) =~= Seq::<char>::empty());
        }
        if chars[i] == sep {
            r.push(trim_range(s, &chars, start, i));
            start = i + 1;
        }
        i = i + 1;
    }
    assert(s@.take(i as int) =~= s@);
    r.push(trim_range(s, &chars, start, i));
    r
}

/// Whether a character is one of the ten digits.
pub open spec fn is_digit(c: char) -> bool {
    '0' <= c <= '9'
}

/// The number that a string of digits stands for.
pub open spec fn digits_value(s: Seq<char>) -> nat
    decreases s.len(),
{
    if s.len() == 0 {
        0
    } else {
        digits_value(s.drop_last()) * 10 + (s.last() as int - '0' as int) as nat
    }
}

/// The digits of a number, without its sign.
pub open spec fn unsigned_part(s: Seq<char>) -> Seq<char> {
    if s.len() > 0 && (s[0] == '-' || s[0] == '+') {
        s.skip(1)
    } else {
        s
    }
}

/// The number that a string stands for, if it is one of 32 bits: digits, behind a sign or not.
pub open spec fn integer_of(s: Seq<char>) -> Option<int> {
    let d = unsigned_part(s);
    let v = if s.len() > 0 && s[0] == '-' {
        -(digits_value(d) as int)
    } else {
        digits_value(d) as int
    };
    if d.len() > 0 && (forall|i: int| 0 <= i < d.len() ==> is_digit(#[trigger] d[i])) && i32::MIN
        <= v <= i32::MAX {
        Some(v)
    } else {
        None
    }
}

proof fn lemma_digits_grow(s: Seq<char>, i: int)
    requires
        0 <= i <= s.len(),
        forall|k: int| 0 <= k < s.len() ==> is_digit(#[trigger] s[k]),
    ensures
        digits_value(s.take(i)) <= digits_value(s),
    decreases s.len(),
{
    if i < s.len() {
        lemma_digits_grow(s.drop_last(), i);
        assert(s.drop_last().take(i) =~= s.take(i));
    } else {
        assert(s.take(i) =~= s);
    }
}

/// The number that a string stands for, if it is one of 32 bits.
pub fn parse_i32(s: &str) -> (r: Option<i32>)
    ensures
        match r {
            Some(v) => integer_of(s@) == Some(v as int),
            None => integer_of(s@) is None,
        },
{
    let chars = chars_of(s);
    let n: usize = chars.len();
    if n == 0 {
        return None;
    }
    let negative = chars[0] == '-';
    let from: usize = if negative || chars[0] == '+' {
        1
    } else {
        0
    };
    let ghost d = unsigned_part(s@);
    assert(d =~= s@.skip(from as int));
    if from == n {
        return None;
    }
    let mut v: i64 = 0;
    let mut i: usize = from;
    assert(d.take(0) =~= Seq::<char>::empty());
    while i < n
        invariant
            chars@ == s@,
            n == s@.len(),
            from <= i <= n,
            d == s@.skip(from as int),
            d == unsigned_part(s@),
            negative == (s@[0] == '-'),
            n > 0,
            forall|k: int| 0 <= k < i - from ==> is_digit(#[trigger] d[k]),
            v == digits_value(d.take(i - from)),
            0 <= v <= 0x8000_0000,
        decreases n - i,
    {
        let c: char = chars[i];
        assert(d[i - from] == c);
        if !('0' <= c && c <= '9') {
            assert(!is_digit(d[i - from]));
            return None;
        }
        assert(d.take(i - from + 1).drop_last() =~= d.take(i - from));
        v = v * 10 + (c as u32 as i64 - 48);
        if v > 0x8000_0000 {
            proof {
                if integer_of(s@) is Some {
                    lemma_digits_grow(d, i - from + 1);
                }
            }
            return None;
        }
        i = i + 1;
    }
    assert(d.take(n - from) =~= d);
    if negative {
        Some((-v) as i32)
    } else if v > 0x7fff_ffff {
        None
    } else {
        Some(v as i32)
    }
}

// What becomes of texts.

/// What is left of a string without the white space at its ends is a part of it. It neither begins nor ends with
/// white space, and all around it is white space.
pub proof fn lemma_trimmed(s: Seq<char>)
    ensures
        trimmed(s).len() > 0 ==> !is_space(trimmed(s).first()) && !is_space(trimmed(s).last()),
        exists|a: int, b: int| #[trigger] is_trimmed_part(s, a, b),
    decreases s.len(),
{
    if s.len() == 0 {
        assert(s.subrange(0, 0) =~= trimmed(s));
        assert(is_trimmed_part(s, 0, 0));
    } else if is_space(s.first()) {
        lemma_trimmed(s.drop_first());
        let (a, b) = choose|a: int, b: int| #[trigger] is_trimmed_part(s.drop_first(), a, b);
        lemma_trim_first(s, a, b);
    } else if is_space(s.last()) {
        lemma_trimmed(s.drop_last());
        let (a, b) = choose|a: int, b: int| #[trigger] is_trimmed_part(s.drop_last(), a, b);
        lemma_trim_last(s, a, b);
    } else {
        assert(s.subrange(0, s.len() as int) =~= s);
        assert(is_trimmed_part(s, 0, s.len() as int));
    }
}

proof fn lemma_trim_first(s: Seq<char>, a: int, b: int)
    requires
        s.len() > 0,
        is_space(s.first()),
        is_trimmed_part(s.drop_first(), a, b),
    ensures
        is_trimmed_part(s, a + 1, b + 1),
{
    let r = s.drop_first();
    assert(r.subrange(a, b) =~= s.subrange(a + 1, b + 1));
    assert forall|i: int| 0 <= i < a + 1 || b + 1 <= i < s.len() implies #[trigger] is_space(s[i]) by {
        if i > 0 {
            assert(is_space(r[i - 1]));
        }
    }
}

proof fn lemma_trim_last(s: Seq<char>, a: int, b: int)
    requires
        s.len() > 0,
        !is_space(s.first()),
        is_space(s.last()),
        is_trimmed_part(s.drop_last(), a, b),
    ensures
        is_trimmed_part(s, a, b),
{
    let r = s.drop_last();
    assert(r.subrange(a, b) =~= s.subrange(a, b));
    assert forall|i: int| 0 <= i < a || b <= i < s.len() implies #[trigger] is_space(s[i]) by {
        if i < r.len() {
            assert(is_space(r[i]));
        }
    }
}

/// Whether a string without the white space at its ends stands between two of its positions, with nothing but
/// white space around it.
pub open spec fn is_trimmed_part(s: Seq<char>, a: int, b: int) -> bool {
    &&& 0 <= a <= b <= s.len()
    &&& trimmed(s) == s.subrange(a, b)
    &&& forall|i: int| 0 <= i < a || b <= i < s.len() ==> #[trigger] is_space(s[i])
}

/// Strings with a separator between each two.
pub open spec fn joined_by(parts: Seq<Seq<char>>, sep: char) -> Seq<char>
    decreases parts.len(),
{
    if parts.len() == 0 {
        Seq::empty()
    } else if parts.len() == 1 {
        parts[0]
    } else {
        joined_by(parts.drop_last(), sep).push(sep) + parts.last()
    }
}

/// The parts of a string, with the separator between each two, are the string again, and none of them holds the
/// separator.
pub proof fn lemma_split_on(s: Seq<char>, sep: char)
    ensures
        split_on(s, sep).len() > 0,
        joined_by(split_on(s, sep), sep) == s,
        forall|i: int|
            0 <= i < split_on(s, sep).len() ==> !(#[trigger] split_on(s, sep)[i]).contains(sep),
    decreases s.len(),
{
    let all = split_on(s, sep);
    if s.len() > 0 {
        let rest = split_on(s.drop_last(), sep);
        lemma_split_on(s.drop_last(), sep);
        if s.last() == sep {
            assert(all.drop_last() =~= rest);
            assert(joined_by(all, sep) =~= s.drop_last().push(sep) + Seq::<char>::empty());
            assert(s =~= joined_by(all, sep));
            assert forall|i: int| 0 <= i < all.len() implies !(#[trigger] all[i]).contains(sep) by {
                if i < rest.len() {
                    assert(all[i] == rest[i]);
                }
            }
        } else {
            let last = rest.last().push(s.last());
            assert(all.drop_last() =~= rest.drop_last());
            if rest.len() == 1 {
                assert(all[0] == last);
                assert(s =~= s.drop_last().push(s.last()));
            } else {
                assert(joined_by(all, sep) =~= joined_by(rest, sep).push(s.last()));
                assert(s =~= joined_by(all, sep));
            }
            assert forall|i: int| 0 <= i < all.len() implies !(#[trigger] all[i]).contains(sep) by {
                if i < rest.len() - 1 {
                    assert(all[i] == rest[i]);
                } else {
                    assert(!rest[rest.len() - 1].contains(sep));
                    if last.contains(sep) {
                        let j = choose|j: int| 0 <= j < last.len() && last[j] == sep;
                        assert(rest.last()[j] == sep);
                    }
                }
            }
        }
    } else {
        assert(all[0] =~= s);
        assert(joined_by(all, sep) =~= s);
    }
}

/// A capital becomes the small letter at the same place of the alphabet; every other character stays.
pub proof fn lemma_lower_char(c: char, k: int)
    ensures
        0 <= k < 26 && c as int == 'A' as int + k ==> lower_char(c) as int == 'a' as int + k,
        !(65 <= c as int <= 90) ==> lower_char(c) == c,
{
    if 0 <= k < 26 && c as int == 'A' as int + k {
        assert(lower_char(c) as int == c as int + 32);
    }
}

/// The letters and digits of a name are all of them, in lower case and in their order, and nothing else.
pub proof fn lemma_compact(s: Seq<char>)
    ensures
        compact(s) == s.filter(
            |c: char| ('0' <= c <= '9') || ('A' <= c <= 'Z') || ('a' <= c <= 'z'),
        ).map_values(|c: char| lower_char(c)),
    decreases s.len(),
{
    reveal(Seq::filter);
    if s.len() > 0 {
        lemma_compact(s.drop_last());
        let kept = s.filter(|c: char| ('0' <= c <= '9') || ('A' <= c <= 'Z') || ('a' <= c <= 'z'));
        assert(compact(s) =~= kept.map_values(|c: char| lower_char(c)));
    }
}

/// A number of 32 bits is read from its digits, behind a minus or not.
pub proof fn lemma_number_is_read_back(n: nat)
    requires
        n <= i32::MAX,
    ensures
        integer_of(crate::shape_ids::decimal(n)) == Some(n as int),
        integer_of(seq!['-'] + crate::shape_ids::decimal(n)) == Some(-(n as int)),
{
    let d = crate::shape_ids::decimal(n);
    crate::shape_ids::lemma_decimal_is_read_back(n);
    lemma_digits_of(n);
    assert('0' <= d[0] <= '9');
    assert(unsigned_part(d) == d);
    let s = seq!['-'] + d;
    assert(s[0] == '-');
    assert(s.skip(1) =~= d);
}

proof fn lemma_digits_of(n: nat)
    ensures
        digits_value(crate::shape_ids::decimal(n)) == n,
    decreases n,
{
    let d = crate::shape_ids::decimal(n);
    if n < 10 {
        assert(d.drop_last() =~= Seq::<char>::empty());
        assert(digits_value(d.drop_last()) == 0);
    } else {
        lemma_digits_of(n / 10);
        assert(d.drop_last() =~= crate::shape_ids::decimal(n / 10));
    }
}

/// A name stands for the line that it stands for with another word before or behind it.
pub proof fn lemma_words_aside(name: Seq<char>, other: Seq<char>, space: char)
    requires
        name.len() > 0,
        other.len() > 0,
        is_space(space),
    ensures
        similar_lines(name, name),
        similar_lines(name.push(space) + other, name),
        similar_lines(other.push(space) + name, name),
{
    let first = name.push(space) + other;
    assert(first.subrange(0, name.len() as int) =~= name);
    assert(first[name.len() as int] == space);
    assert(word_first(first, name));
    let last = other.push(space) + name;
    let k = last.len() - name.len();
    assert(last.subrange(k, last.len() as int) =~= name);
    assert(last[k - 1] == space);
    assert(word_last(last, name));
}

} // verus!
