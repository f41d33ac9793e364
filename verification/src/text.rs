//! Text as sequences of characters: the string operations that the rest of the
//! library is built from, each with an exact specification.

use vstd::prelude::*;
use vstd::slice::slice_subrange;
use vstd::utf8::*;

verus! {

// ---------------------------------------------------------------------------
// Conversions
// ---------------------------------------------------------------------------

/// `String::push` appends one character to the end of the string.
pub assume_specification[ String::push ](s: &mut String, c: char)
    ensures
        final(s)@ == old(s)@.push(c),
;

/// The characters of a string.
pub fn chars_of(s: &str) -> (r: Vec<char>)
    ensures
        r@ == s@,
{
    let mut r: Vec<char> = Vec::new();
    for c in it: s.chars()
        invariant
            it.seq() == s@,
            r@ == s@.take(it.index()),
    {
        r.push(c);
        assert(s@.take(it.index() + 1) =~= s@.take(it.index()).push(s@[it.index()]));
    }
    assert(s@.take(s@.len() as int) =~= s@);
    r
}

/// Appends every character of `cs` to `s`.
pub fn push_chars(s: &mut String, cs: &[char])
    ensures
        final(s)@ == old(s)@ + cs@,
{
    let ghost before = s@;
    let n: usize = cs.len();
    let mut i: usize = 0;
    while i < n
        invariant
            i <= n == cs@.len(),
            s@ == before + cs@.take(i as int),
        decreases n - i,
    {
        s.push(cs[i]);
        i += 1;
        assert(cs@.take(i as int) =~= cs@.take(i - 1).push(cs@[i - 1]));
    }
    assert(cs@.take(n as int) =~= cs@);
}

/// The string made of the given characters.
pub fn string_of(cs: &[char]) -> (r: String)
    ensures
        r@ == cs@,
{
    let mut r = String::new();
    push_chars(&mut r, cs);
    assert(Seq::<char>::empty() + cs@ =~= cs@);
    r
}

/// Appends every character of `cs` to `out`.
pub fn extend_chars(out: &mut Vec<char>, cs: &[char])
    ensures
        final(out)@ == old(out)@ + cs@,
{
    let ghost before = out@;
    let n: usize = cs.len();
    let mut i: usize = 0;
    while i < n
        invariant
            i <= n == cs@.len(),
            out@ == before + cs@.take(i as int),
        decreases n - i,
    {
        out.push(cs[i]);
        i += 1;
        assert(cs@.take(i as int) =~= cs@.take(i - 1).push(cs@[i - 1]));
    }
    assert(cs@.take(n as int) =~= cs@);
}

/// The concatenation of two strings.
pub fn concat(a: &str, b: &str) -> (r: String)
    ensures
        r@ == a@ + b@,
{
    let mut r = a.to_owned();
    r.append(b);
    r
}

// ---------------------------------------------------------------------------
// White space
// ---------------------------------------------------------------------------

/// The characters with the Unicode property `White_Space`.
pub open spec fn is_white(c: char) -> bool {
    let u = c as u32;
    ||| 0x09 <= u <= 0x0d
    ||| u == 0x20
    ||| u == 0x85
    ||| u == 0xa0
    ||| u == 0x1680
    ||| 0x2000 <= u <= 0x200a
    ||| u == 0x2028
    ||| u == 0x2029
    ||| u == 0x202f
    ||| u == 0x205f
    ||| u == 0x3000
}

/// Whether `c` is a white-space character.
pub fn white(c: char) -> (r: bool)
    ensures
        r == is_white(c),
{
    let u: u32 = c as u32;
    (0x09 <= u && u <= 0x0d) || u == 0x20 || u == 0x85 || u == 0xa0 || u == 0x1680 || (0x2000 <= u
        && u <= 0x200a) || u == 0x2028 || u == 0x2029 || u == 0x202f || u == 0x205f || u == 0x3000
}

/// `s` without its leading white space.
pub open spec fn trimmed_start(s: Seq<char>) -> Seq<char>
    decreases s.len(),
{
    if s.len() > 0 && is_white(s[0]) {
        trimmed_start(s.skip(1))
    } else {
        s
    }
}

/// `s` without its trailing white space.
pub open spec fn trimmed_end(s: Seq<char>) -> Seq<char>
    decreases s.len(),
{
    if s.len() > 0 && is_white(s.last()) {
        trimmed_end(s.drop_last())
    } else {
        s
    }
}

/// `s` without leading and trailing white space.
pub open spec fn trimmed(s: Seq<char>) -> Seq<char> {
    trimmed_end(trimmed_start(s))
}

/// Trimming gives a part of the text.
pub proof fn lemma_trimmed_part(s: Seq<char>) -> (r: (int, int))
    ensures
        0 <= r.0 <= r.1 <= s.len(),
        trimmed(s) == s.subrange(r.0, r.1),
{
    let a = lemma_trimmed_start_part(s);
    let t = trimmed_start(s);
    let b = lemma_trimmed_end_part(t);
    assert(trimmed(s) =~= s.subrange(a, a + b));
    (a, a + b)
}

/// Trimming gives the part of the text with nothing but white space around it
/// and no white space at its ends.
pub proof fn lemma_trimmed_is(s: Seq<char>, a: int, b: int)
    requires
        0 <= a <= b <= s.len(),
        forall|i: int| 0 <= i < a ==> is_white(#[trigger] s[i]),
        forall|i: int| b <= i < s.len() ==> is_white(#[trigger] s[i]),
        a < b ==> !is_white(s[a]) && !is_white(s[b - 1]),
    ensures
        trimmed(s) == s.subrange(a, b),
    decreases s.len(),
{
    if a == b {
        assert(is_blank(s));
        lemma_trimmed_blank(s);
        assert(trimmed(s) =~= s.subrange(a, b));
    } else if a > 0 {
        assert(is_white(s[0]));
        let rest = s.skip(1);
        assert forall|i: int| 0 <= i < a - 1 implies is_white(#[trigger] rest[i]) by {
            assert(rest[i] == s[i + 1]);
        }
        assert forall|i: int| b - 1 <= i < rest.len() implies is_white(#[trigger] rest[i]) by {
            assert(rest[i] == s[i + 1]);
        }
        lemma_trimmed_is(rest, a - 1, b - 1);
        assert(rest.subrange(a - 1, b - 1) =~= s.subrange(a, b));
    } else if b < s.len() {
        assert(is_white(s[s.len() - 1]));
        let rest = s.drop_last();
        lemma_trimmed_is(rest, a, b);
        assert(trimmed_start(s) == s);
        assert(trimmed_start(rest) == rest);
        assert(rest.subrange(a, b) =~= s.subrange(a, b));
    } else {
        assert(s.subrange(a, b) =~= s);
    }
}

/// The part of the text that trimming gives: all around it is white space, and no
/// white space is at its ends.
pub proof fn lemma_trimmed_ends(s: Seq<char>) -> (r: (int, int))
    ensures
        0 <= r.0 <= r.1 <= s.len(),
        trimmed(s) == s.subrange(r.0, r.1),
        forall|i: int| 0 <= i < r.0 ==> is_white(#[trigger] s[i]),
        forall|i: int| r.1 <= i < s.len() ==> is_white(#[trigger] s[i]),
        r.0 < r.1 ==> !is_white(s[r.0]) && !is_white(s[r.1 - 1]),
    decreases s.len(),
{
    if s.len() > 0 && is_white(s[0]) {
        let rest = s.skip(1);
        let (a, b) = lemma_trimmed_ends(rest);
        assert forall|i: int| 0 <= i < a + 1 implies is_white(#[trigger] s[i]) by {
            if i > 0 {
                assert(rest[i - 1] == s[i]);
            }
        }
        assert forall|i: int| b + 1 <= i < s.len() implies is_white(#[trigger] s[i]) by {
            assert(rest[i - 1] == s[i]);
        }
        assert(rest.subrange(a, b) =~= s.subrange(a + 1, b + 1));
        (a + 1, b + 1)
    } else if s.len() > 0 && is_white(s.last()) {
        let rest = s.drop_last();
        let (a, b) = lemma_trimmed_ends(rest);
        assert(trimmed_start(s) == s);
        assert(trimmed_start(rest) == rest);
        assert forall|i: int| 0 <= i < a implies is_white(#[trigger] s[i]) by {
            assert(rest[i] == s[i]);
        }
        assert forall|i: int| b <= i < s.len() implies is_white(#[trigger] s[i]) by {
            if i < rest.len() {
                assert(rest[i] == s[i]);
            }
        }
        assert(rest.subrange(a, b) =~= s.subrange(a, b));
        (a, b)
    } else {
        assert(s.subrange(0, s.len() as int) =~= s);
        (0, s.len() as int)
    }
}

proof fn lemma_trimmed_start_part(s: Seq<char>) -> (a: int)
    ensures
        0 <= a <= s.len(),
        trimmed_start(s) == s.skip(a),
    decreases s.len(),
{
    if s.len() > 0 && is_white(s[0]) {
        let a = lemma_trimmed_start_part(s.skip(1));
        assert(s.skip(1).skip(a) =~= s.skip(a + 1));
        a + 1
    } else {
        assert(s.skip(0) =~= s);
        0
    }
}

proof fn lemma_trimmed_end_part(s: Seq<char>) -> (b: int)
    ensures
        0 <= b <= s.len(),
        trimmed_end(s) == s.take(b),
    decreases s.len(),
{
    if s.len() > 0 && is_white(s.last()) {
        let b = lemma_trimmed_end_part(s.drop_last());
        assert(s.drop_last().take(b) =~= s.take(b));
        b
    } else {
        assert(s.take(s.len() as int) =~= s);
        s.len() as int
    }
}

/// `s` without leading and trailing white space.
pub fn trim(s: &[char]) -> (r: &[char])
    ensures
        r@ == trimmed(s@),
{
    let n: usize = s.len();
    let mut i: usize = 0;
    assert(s@.skip(0) =~= s@);
    while i < n && white(s[i])
        invariant
            i <= n == s@.len(),
            trimmed_start(s@) == trimmed_start(s@.skip(i as int)),
        decreases n - i,
    {
        assert(s@.skip(i as int).skip(1) =~= s@.skip(i + 1));
        i += 1;
    }
    let ghost t = s@.skip(i as int);
    let mut j: usize = n;
    assert(s@.subrange(i as int, n as int) =~= t);
    while i < j && white(s[j - 1])
        invariant
            i <= j <= n == s@.len(),
            trimmed_end(t) == trimmed_end(s@.subrange(i as int, j as int)),
        decreases j,
    {
        assert(s@.subrange(i as int, j as int).drop_last() =~= s@.subrange(i as int, j - 1));
        j -= 1;
    }
    slice_subrange(s, i, j)
}

/// Whether every character of `s` is white space, which is when `trimmed(s)` is empty.
pub open spec fn is_blank(s: Seq<char>) -> bool {
    forall|i: int| 0 <= i < s.len() ==> is_white(#[trigger] s[i])
}

/// Trimming leaves nothing of `s` exactly when `s` is all white space.
pub proof fn lemma_trimmed_blank(s: Seq<char>)
    ensures
        is_blank(s) <==> trimmed(s).len() == 0,
{
    lemma_trimmed_start_blank(s);
    lemma_trimmed_end_blank(trimmed_start(s));
}

proof fn lemma_trimmed_start_blank(s: Seq<char>)
    ensures
        is_blank(s) <==> is_blank(trimmed_start(s)),
    decreases s.len(),
{
    if s.len() > 0 && is_white(s[0]) {
        lemma_trimmed_start_blank(s.skip(1));
        assert forall|i: int| is_blank(s.skip(1)) && 0 <= i < s.len() implies is_white(
            #[trigger] s[i],
        ) by {
            if i > 0 {
                assert(s.skip(1)[i - 1] == s[i]);
            }
        }
        assert forall|i: int| is_blank(s) && 0 <= i < s.len() - 1 implies is_white(
            #[trigger] s.skip(1)[i],
        ) by {
            assert(s.skip(1)[i] == s[i + 1]);
        }
    }
}

proof fn lemma_trimmed_end_blank(s: Seq<char>)
    ensures
        is_blank(s) <==> trimmed_end(s).len() == 0,
    decreases s.len(),
{
    if s.len() > 0 && is_white(s.last()) {
        lemma_trimmed_end_blank(s.drop_last());
        assert forall|i: int| is_blank(s.drop_last()) && 0 <= i < s.len() implies is_white(
            #[trigger] s[i],
        ) by {
            if i < s.len() - 1 {
                assert(s.drop_last()[i] == s[i]);
            }
        }
        assert forall|i: int| is_blank(s) && 0 <= i < s.len() - 1 implies is_white(
            #[trigger] s.drop_last()[i],
        ) by {
            assert(s.drop_last()[i] == s[i]);
        }
    } else if s.len() > 0 {
        assert(!is_white(s[s.len() - 1]));
    }
}

// ---------------------------------------------------------------------------
// Comparison
// ---------------------------------------------------------------------------

/// Whether two character slices are equal.
pub fn same_chars(a: &[char], b: &[char]) -> (r: bool)
    ensures
        r == (a@ == b@),
{
    if a.len() != b.len() {
        return false;
    }
    let n: usize = a.len();
    let mut i: usize = 0;
    while i < n
        invariant
            i <= n == a@.len() == b@.len(),
            forall|k: int| 0 <= k < i ==> a@[k] == b@[k],
        decreases n - i,
    {
        if a[i] != b[i] {
            return false;
        }
        i += 1;
    }
    assert(a@ =~= b@);
    true
}

/// Whether `a` holds the characters of `b`.
pub fn equals(a: &[char], b: &str) -> (r: bool)
    ensures
        r == (a@ == b@),
{
    let chars = chars_of(b);
    same_chars(a, chars.as_slice())
}

/// Whether two strings are equal.
pub fn same(a: &str, b: &str) -> (r: bool)
    ensures
        r == (a@ == b@),
{
    let x = chars_of(a);
    let y = chars_of(b);
    same_chars(x.as_slice(), y.as_slice())
}

/// Whether `a` precedes `b` in the lexicographic order by code point, which is
/// also the order of their UTF-8 encodings as bytes.
pub open spec fn lex_less(a: Seq<char>, b: Seq<char>) -> bool
    decreases a.len(),
{
    if b.len() == 0 {
        false
    } else if a.len() == 0 {
        true
    } else if a[0] == b[0] {
        lex_less(a.skip(1), b.skip(1))
    } else {
        (a[0] as u32) < (b[0] as u32)
    }
}

/// Whether `a` precedes `b` in the lexicographic order by code point.
pub fn lex_before(a: &[char], b: &[char]) -> (r: bool)
    ensures
        r == lex_less(a@, b@),
{
    let mut i: usize = 0;
    assert(a@.skip(0) =~= a@);
    assert(b@.skip(0) =~= b@);
    while i < a.len() && i < b.len() && a[i] == b[i]
        invariant
            i <= a@.len(),
            i <= b@.len(),
            lex_less(a@, b@) == lex_less(a@.skip(i as int), b@.skip(i as int)),
        decreases a@.len() - i,
    {
        assert(a@.skip(i as int).skip(1) =~= a@.skip(i + 1));
        assert(b@.skip(i as int).skip(1) =~= b@.skip(i + 1));
        i += 1;
    }
    if i >= b.len() {
        false
    } else if i >= a.len() {
        true
    } else {
        (a[i] as u32) < (b[i] as u32)
    }
}

/// The lexicographic order is irreflexive and asymmetric, and any two different
/// sequences are comparable.
pub proof fn lemma_lex_less_total(a: Seq<char>, b: Seq<char>)
    ensures
        !(lex_less(a, b) && lex_less(b, a)),
        a == b ==> !lex_less(a, b),
        a != b ==> lex_less(a, b) || lex_less(b, a),
    decreases a.len(),
{
    if a.len() > 0 && b.len() > 0 && a[0] == b[0] {
        lemma_lex_less_total(a.skip(1), b.skip(1));
        if a.skip(1) == b.skip(1) {
            assert forall|i: int| 0 <= i < a.len() implies a[i] == b[i] by {
                if i > 0 {
                    assert(a.skip(1)[i - 1] == b.skip(1)[i - 1]);
                }
            }
            assert(a.skip(1).len() == b.skip(1).len());
            assert(a =~= b);
        }
    } else if a.len() == 0 && b.len() == 0 {
        assert(a =~= b);
    } else if a.len() > 0 && b.len() > 0 {
        char_u32_cast(a[0], a[0] as u32);
        char_u32_cast(b[0], b[0] as u32);
    }
}

/// The lexicographic order is transitive.
pub proof fn lemma_lex_less_transitive(a: Seq<char>, b: Seq<char>, c: Seq<char>)
    requires
        lex_less(a, b),
        lex_less(b, c),
    ensures
        lex_less(a, c),
    decreases a.len(),
{
    if a.len() > 0 && a[0] == b[0] && b[0] == c[0] {
        lemma_lex_less_transitive(a.skip(1), b.skip(1), c.skip(1));
    }
}

// ---------------------------------------------------------------------------
// Searching
// ---------------------------------------------------------------------------

/// Whether `needle` stands in `hay` at index `i`.
pub open spec fn occurs_at(hay: Seq<char>, needle: Seq<char>, i: int) -> bool {
    0 <= i && i + needle.len() <= hay.len() && hay.subrange(i, i + needle.len()) == needle
}

/// The least index at or after `i` at which `needle` stands in `hay`.
pub open spec fn find_from(hay: Seq<char>, needle: Seq<char>, i: int) -> Option<int>
    decreases hay.len() - i + 1,
{
    if i < 0 || i + needle.len() > hay.len() {
        None
    } else if occurs_at(hay, needle, i) {
        Some(i)
    } else {
        find_from(hay, needle, i + 1)
    }
}

/// The least index at which `needle` stands in `hay`.
pub open spec fn find_in(hay: Seq<char>, needle: Seq<char>) -> Option<int> {
    find_from(hay, needle, 0)
}

/// The greatest index at or before `i` at which `needle` stands in `hay`.
pub open spec fn rfind_from(hay: Seq<char>, needle: Seq<char>, i: int) -> Option<int>
    decreases i + 1,
{
    if i < 0 {
        None
    } else if occurs_at(hay, needle, i) {
        Some(i)
    } else {
        rfind_from(hay, needle, i - 1)
    }
}

/// The greatest index at which `needle` stands in `hay`.
pub open spec fn rfind_in(hay: Seq<char>, needle: Seq<char>) -> Option<int> {
    rfind_from(hay, needle, hay.len() - needle.len())
}

/// `find_from` gives the first place, if there is any.
pub proof fn lemma_find_from(hay: Seq<char>, needle: Seq<char>, i: int)
    requires
        0 <= i,
    ensures
        match find_from(hay, needle, i) {
            Some(p) => i <= p && occurs_at(hay, needle, p) && forall|k: int|
                i <= k < p ==> !occurs_at(hay, needle, k),
            None => forall|k: int| i <= k ==> !occurs_at(hay, needle, k),
        },
    decreases hay.len() - i + 1,
{
    if i + needle.len() <= hay.len() && !occurs_at(hay, needle, i) {
        lemma_find_from(hay, needle, i + 1);
    }
}

/// Searching the end of a text finds what searching the text from there finds.
pub proof fn lemma_find_shift(hay: Seq<char>, needle: Seq<char>, base: int, i: int)
    requires
        0 <= base <= hay.len(),
        0 <= i,
    ensures
        find_from(hay.skip(base), needle, i) == (match find_from(hay, needle, base + i) {
            Some(p) => Some(p - base),
            None => None::<int>,
        }),
    decreases hay.len() - base - i + 1,
{
    let rest = hay.skip(base);
    if i + needle.len() <= rest.len() {
        assert(rest.subrange(i, i + needle.len()) =~= hay.subrange(
            base + i,
            base + i + needle.len(),
        ));
        if !occurs_at(rest, needle, i) {
            lemma_find_shift(hay, needle, base, i + 1);
        }
    }
}

/// `rfind_from` gives the last place, if there is any.
pub proof fn lemma_rfind_from(hay: Seq<char>, needle: Seq<char>, i: int)
    ensures
        match rfind_from(hay, needle, i) {
            Some(p) => p <= i && occurs_at(hay, needle, p) && forall|k: int|
                p < k <= i ==> !occurs_at(hay, needle, k),
            None => forall|k: int| k <= i ==> !occurs_at(hay, needle, k),
        },
    decreases i + 1,
{
    if i >= 0 && !occurs_at(hay, needle, i) {
        lemma_rfind_from(hay, needle, i - 1);
    }
}

/// Whether `needle` stands in `hay` at index `i`.
pub fn stands_at(hay: &[char], needle: &[char], i: usize) -> (r: bool)
    ensures
        r == occurs_at(hay@, needle@, i as int),
{
    if needle.len() > hay.len() || i > hay.len() - needle.len() {
        return false;
    }
    same_chars(slice_subrange(hay, i, i + needle.len()), needle)
}

/// The least index at or after `start` at which `needle` stands in `hay`.
pub fn find_after(hay: &[char], needle: &[char], start: usize) -> (r: Option<usize>)
    ensures
        match (r, find_from(hay@, needle@, start as int)) {
            (Some(a), Some(b)) => a == b,
            (None, None) => true,
            _ => false,
        },
        r matches Some(p) ==> start <= p && p + needle@.len() <= hay@.len(),
{
    let mut i: usize = start;
    if needle.len() > hay.len() {
        return None;
    }
    let last: usize = hay.len() - needle.len();
    while i <= last
        invariant
            last == hay@.len() - needle@.len(),
            start <= i <= last + 1 || i == start,
            find_from(hay@, needle@, start as int) == find_from(hay@, needle@, i as int),
        decreases last + 1 - i,
    {
        if stands_at(hay, needle, i) {
            return Some(i);
        }
        if i == last {
            assert(find_from(hay@, needle@, i + 1) is None);
            return None;
        }
        i += 1;
    }
    None
}

/// The least index at which `needle` stands in `hay`.
pub fn find(hay: &[char], needle: &[char]) -> (r: Option<usize>)
    ensures
        match (r, find_in(hay@, needle@)) {
            (Some(a), Some(b)) => a == b,
            (None, None) => true,
            _ => false,
        },
        r matches Some(p) ==> p + needle@.len() <= hay@.len(),
{
    find_after(hay, needle, 0)
}

/// The greatest index at which `needle` stands in `hay`.
pub fn rfind(hay: &[char], needle: &[char]) -> (r: Option<usize>)
    ensures
        match (r, rfind_in(hay@, needle@)) {
            (Some(a), Some(b)) => a == b,
            (None, None) => true,
            _ => false,
        },
        r matches Some(p) ==> p + needle@.len() <= hay@.len(),
{
    if needle.len() > hay.len() {
        return None;
    }
    let mut i: usize = hay.len() - needle.len();
    loop
        invariant
            i <= hay@.len() - needle@.len(),
            rfind_in(hay@, needle@) == rfind_from(hay@, needle@, i as int),
        decreases i,
    {
        if stands_at(hay, needle, i) {
            return Some(i);
        }
        if i == 0 {
            assert(rfind_from(hay@, needle@, -1) is None);
            return None;
        }
        i -= 1;
    }
}

/// Whether `s` begins with `prefix`.
pub open spec fn begins_with(s: Seq<char>, prefix: Seq<char>) -> bool {
    occurs_at(s, prefix, 0)
}

/// Whether `s` begins with `prefix`.
pub fn starts_with(s: &[char], prefix: &str) -> (r: bool)
    ensures
        r == begins_with(s@, prefix@),
{
    let p = chars_of(prefix);
    stands_at(s, p.as_slice(), 0)
}

/// What remains of `s` after its first `n` characters.
pub fn skip(s: &[char], n: usize) -> (r: &[char])
    requires
        n <= s@.len(),
    ensures
        r@ == s@.skip(n as int),
{
    let r = slice_subrange(s, n, s.len());
    assert(r@ =~= s@.skip(n as int));
    r
}

/// The first `n` characters of `s`.
pub fn take(s: &[char], n: usize) -> (r: &[char])
    requires
        n <= s@.len(),
    ensures
        r@ == s@.take(n as int),
{
    let r = slice_subrange(s, 0, n);
    assert(r@ =~= s@.take(n as int));
    r
}

// ---------------------------------------------------------------------------
// Lines, words and joining
// ---------------------------------------------------------------------------

/// The contents of a list of character vectors.
pub open spec fn views(v: Seq<Vec<char>>) -> Seq<Seq<char>> {
    Seq::new(v.len(), |i: int| v[i]@)
}

/// The index of the first line feed of `s`, or its length if there is none.
pub open spec fn line_end(s: Seq<char>) -> nat
    decreases s.len(),
{
    if s.len() == 0 || s[0] == '\n' {
        0
    } else {
        1 + line_end(s.skip(1))
    }
}

/// `s` without a carriage return at its end.
pub open spec fn without_cr(s: Seq<char>) -> Seq<char> {
    if s.len() > 0 && s.last() == '\r' {
        s.drop_last()
    } else {
        s
    }
}

/// `s` without the carriage returns at its end.
pub open spec fn without_crs(s: Seq<char>) -> Seq<char>
    decreases s.len(),
{
    if s.len() > 0 && s.last() == '\r' {
        without_crs(s.drop_last())
    } else {
        s
    }
}

/// `s` without the carriage returns at its end.
pub fn strip_crs(s: &[char]) -> (r: &[char])
    ensures
        r@ == without_crs(s@),
        r@.len() <= s@.len(),
        r@ == s@.take(r@.len() as int),
{
    let mut n: usize = s.len();
    assert(s@.take(n as int) =~= s@);
    while n > 0 && s[n - 1] == '\r'
        invariant
            n <= s@.len(),
            without_crs(s@) == without_crs(s@.take(n as int)),
        decreases n,
    {
        assert(s@.take(n as int).drop_last() =~= s@.take(n - 1));
        n -= 1;
    }
    take(s, n)
}

/// The lines of `s`: a line ends at a line feed, with a carriage return before
/// the line feed belonging to the line ending; the final line ending is optional.
pub open spec fn lines_of(s: Seq<char>) -> Seq<Seq<char>>
    decreases s.len(),
{
    if s.len() == 0 {
        Seq::empty()
    } else if line_end(s) < s.len() {
        seq![without_cr(s.take(line_end(s) as int))] + lines_of(s.skip(line_end(s) as int + 1))
    } else {
        seq![s]
    }
}

/// A line holds no line feed.
pub proof fn lemma_line_has_no_feed(s: Seq<char>, i: int)
    requires
        0 <= i < lines_of(s).len(),
    ensures
        !lines_of(s)[i].contains('\n'),
    decreases s.len(),
{
    let end = line_end(s) as int;
    lemma_line_end(s);
    if end < s.len() && i > 0 {
        lemma_line_has_no_feed(s.skip(end + 1), i - 1);
        assert(lines_of(s)[i] == lines_of(s.skip(end + 1))[i - 1]);
    }
}

/// No line feed stands before the line's end, and one stands there.
pub proof fn lemma_line_end(s: Seq<char>)
    ensures
        line_end(s) <= s.len(),
        line_end(s) < s.len() ==> s[line_end(s) as int] == '\n',
        forall|i: int| 0 <= i < line_end(s) ==> #[trigger] s[i] != '\n',
    decreases s.len(),
{
    if s.len() > 0 && s[0] != '\n' {
        lemma_line_end(s.skip(1));
        assert forall|i: int| 0 <= i < line_end(s) implies #[trigger] s[i] != '\n' by {
            if i > 0 {
                assert(s.skip(1)[i - 1] == s[i]);
            }
        }
    }
}

/// A line ends at the first line feed, or with the text.
proof fn lemma_line_end_is(s: Seq<char>, e: int)
    requires
        0 <= e <= s.len(),
        e < s.len() ==> s[e] == '\n',
        forall|i: int| 0 <= i < e ==> #[trigger] s[i] != '\n',
    ensures
        line_end(s) == e,
{
    lemma_line_end(s);
    if line_end(s) < e {
        assert(s[line_end(s) as int] != '\n');
    }
}

/// The lines of a text that begins with a line.
pub proof fn lemma_lines_front(line: Seq<char>, rest: Seq<char>)
    requires
        !line.contains('\n'),
        line.len() > 0 ==> line.last() != '\r',
    ensures
        lines_of(line + seq!['\n'] + rest) == seq![line] + lines_of(rest),
{
    let s = line + seq!['\n'] + rest;
    let e = line.len() as int;
    assert forall|i: int| 0 <= i < e implies #[trigger] s[i] != '\n' by {
        assert(line.contains(line[i]));
    }
    lemma_line_end_is(s, e);
    assert(s.take(e) =~= line);
    assert(s.skip(e + 1) =~= rest);
}

/// The lines of two texts, the first of which ends with a line feed, are those of
/// the first and then those of the second.
pub proof fn lemma_lines_join(s: Seq<char>, rest: Seq<char>)
    requires
        s.len() > 0,
        s.last() == '\n',
    ensures
        lines_of(s + rest) == lines_of(s) + lines_of(rest),
    decreases s.len(),
{
    let e = line_end(s) as int;
    lemma_line_end(s);
    if e == s.len() {
        assert(s[s.len() - 1] != '\n');
    }
    let all = s + rest;
    assert forall|i: int| 0 <= i < e implies #[trigger] all[i] != '\n' by {
        assert(s[i] != '\n');
    }
    lemma_line_end_is(all, e);
    assert(all.take(e) =~= s.take(e));
    let tail = s.skip(e + 1);
    assert(all.skip(e + 1) =~= tail + rest);
    if tail.len() > 0 {
        assert(tail.last() == s.last());
        lemma_lines_join(tail, rest);
    } else {
        assert(tail + rest =~= rest);
        assert(lines_of(tail) =~= Seq::empty());
    }
    assert(lines_of(all) =~= lines_of(s) + lines_of(rest));
}

/// A line feed at the end of a text ends its last line, or adds an empty one where
/// no line was left to end.
pub proof fn lemma_lines_feed(s: Seq<char>)
    requires
        s.len() > 0 ==> s.last() != '\r',
    ensures
        lines_of(s.push('\n')) == if s.len() == 0 || s.last() == '\n' {
            lines_of(s).push(Seq::empty())
        } else {
            lines_of(s)
        },
    decreases s.len(),
{
    let all = s.push('\n');
    let e = line_end(s) as int;
    lemma_line_end(s);
    assert forall|i: int| 0 <= i < e implies #[trigger] all[i] != '\n' by {
        assert(s[i] != '\n');
    }
    lemma_line_end_is(all, e);
    assert(all.take(e) =~= s.take(e));
    if e == s.len() {
        assert(s.take(e) =~= s);
        assert(all.skip(e + 1) =~= Seq::empty());
        assert(lines_of(all.skip(e + 1)) =~= Seq::empty());
        if s.len() == 0 {
            assert(lines_of(s) =~= Seq::empty());
            assert(without_cr(all.take(e)) =~= Seq::empty());
            assert(lines_of(all) =~= seq![without_cr(all.take(e))] + lines_of(all.skip(e + 1)));
            assert(lines_of(all) =~= seq![Seq::empty()]);
            assert(lines_of(s).push(Seq::empty()) =~= seq![Seq::empty()]);
        } else {
            assert(s[s.len() - 1] != '\n');
            assert(lines_of(all) =~= seq![s]);
        }
    } else {
        let tail = s.skip(e + 1);
        assert(all.skip(e + 1) =~= tail.push('\n'));
        if tail.len() > 0 {
            assert(tail.last() == s.last());
        } else {
            assert(s.last() == s[e]);
        }
        lemma_lines_feed(tail);
        if s.last() == '\n' {
            assert(lines_of(all) =~= lines_of(s).push(Seq::empty()));
        } else {
            assert(lines_of(all) =~= lines_of(s));
        }
    }
}

/// A line feed at the end of a text takes a carriage return before it along.
pub proof fn lemma_lines_feed_cr(s: Seq<char>)
    requires
        s.len() > 0,
        s.last() == '\r',
    ensures
        lines_of(s).len() > 0,
        lines_of(s.push('\n')) == lines_of(s).drop_last().push(without_cr(lines_of(s).last())),
    decreases s.len(),
{
    let all = s.push('\n');
    let e = line_end(s) as int;
    lemma_line_end(s);
    assert forall|i: int| 0 <= i < e implies #[trigger] all[i] != '\n' by {
        assert(s[i] != '\n');
    }
    lemma_line_end_is(all, e);
    assert(all.take(e) =~= s.take(e));
    if e == s.len() {
        assert(s.take(e) =~= s);
        assert(all.skip(e + 1) =~= Seq::empty());
        assert(lines_of(all.skip(e + 1)) =~= Seq::empty());
        assert(lines_of(all) =~= seq![without_cr(s)]);
        assert(lines_of(s).drop_last().push(without_cr(s)) =~= seq![without_cr(s)]);
    } else {
        let tail = s.skip(e + 1);
        assert(all.skip(e + 1) =~= tail.push('\n'));
        if tail.len() == 0 {
            assert(s.last() == s[e]);
        }
        assert(tail.last() == s.last());
        lemma_lines_feed_cr(tail);
        assert(lines_of(s).last() == lines_of(tail).last());
        assert(lines_of(all) =~= lines_of(s).drop_last().push(without_cr(lines_of(s).last())));
    }
}

/// The index at which line `k` of `s` begins.
pub open spec fn line_start(s: Seq<char>, k: int) -> int
    decreases k,
{
    if k <= 0 {
        0
    } else {
        let before = line_start(s, k - 1);
        before + line_end(s.skip(before)) + 1
    }
}

/// The lines from `k` on are those of the text from where line `k` begins.
pub proof fn lemma_lines_from(s: Seq<char>, k: int)
    requires
        0 <= k < lines_of(s).len(),
    ensures
        0 <= line_start(s, k) < s.len(),
        lines_of(s).skip(k) == lines_of(s.skip(line_start(s, k))),
    decreases k,
{
    if k == 0 {
        assert(s.skip(0) =~= s);
        assert(lines_of(s).skip(0) =~= lines_of(s));
    } else {
        lemma_lines_from(s, k - 1);
        let before = line_start(s, k - 1);
        let rest = s.skip(before);
        let end = line_end(rest) as int;
        lemma_line_end(rest);
        assert(lines_of(s).skip(k - 1).len() >= 2);
        assert(end < rest.len());
        assert(rest.skip(end + 1) =~= s.skip(line_start(s, k)));
        assert(lines_of(s).skip(k) =~= lines_of(s).skip(k - 1).skip(1));
        assert(lines_of(rest).skip(1) =~= lines_of(rest.skip(end + 1)));
    }
}

/// Each line of a text stands in the text where the line begins.
pub proof fn lemma_line_occurs(s: Seq<char>, k: int)
    requires
        0 <= k < lines_of(s).len(),
    ensures
        occurs_at(s, lines_of(s)[k], line_start(s, k)),
{
    lemma_lines_from(s, k);
    let from = line_start(s, k);
    let rest = s.skip(from);
    let end = line_end(rest) as int;
    let line = lines_of(s)[k];
    lemma_line_end(rest);
    assert(line == lines_of(s).skip(k)[0]);
    if end < rest.len() {
        assert(line == without_cr(rest.take(end)));
    } else {
        assert(line == rest);
    }
    assert(s.subrange(from, from + line.len()) =~= line);
}

/// The indices at which the lines of `s` begin.
pub fn line_starts(s: &[char]) -> (r: Vec<usize>)
    ensures
        r@.len() == lines_of(s@).len(),
        forall|k: int| 0 <= k < r@.len() ==> #[trigger] r@[k] == line_start(s@, k),
{
    let mut out: Vec<usize> = Vec::new();
    let n: usize = s.len();
    let mut start: usize = 0;
    assert(s@.skip(0) =~= s@);
    while start < n
        invariant
            start <= n == s@.len(),
            out@.len() + lines_of(s@.skip(start as int)).len() == lines_of(s@).len(),
            forall|k: int| 0 <= k < out@.len() ==> #[trigger] out@[k] == line_start(s@, k),
            start < n ==> start == line_start(s@, out@.len() as int),
        decreases n - start,
    {
        let ghost rest = s@.skip(start as int);
        let mut end: usize = start;
        assert(rest.skip(0) =~= rest);
        while end < n && s[end] != '\n'
            invariant
                start <= end <= n == s@.len(),
                rest == s@.skip(start as int),
                line_end(rest) == (end - start) + line_end(rest.skip(end - start)),
            decreases n - end,
        {
            assert(rest.skip(end - start).skip(1) =~= rest.skip(end - start + 1));
            end += 1;
        }
        out.push(start);
        assert(line_end(rest) == end - start);
        if end < n {
            assert(rest.skip(end - start + 1) =~= s@.skip(end + 1));
            start = end + 1;
        } else {
            assert(lines_of(rest) =~= seq![rest]);
            assert(s@.skip(n as int) =~= Seq::empty());
            start = n;
        }
    }
    assert(s@.skip(n as int) =~= Seq::empty());
    out
}

/// The lines of `s`, without their line endings.
pub fn lines(s: &[char]) -> (r: Vec<Vec<char>>)
    ensures
        views(r@) == lines_of(s@),
{
    let mut out: Vec<Vec<char>> = Vec::new();
    let n: usize = s.len();
    let mut start: usize = 0;
    assert(s@.skip(0) =~= s@);
    assert(views(out@) + lines_of(s@) =~= lines_of(s@));
    while start < n
        invariant
            start <= n == s@.len(),
            views(out@) + lines_of(s@.skip(start as int)) == lines_of(s@),
        decreases n - start,
    {
        let ghost rest = s@.skip(start as int);
        let mut end: usize = start;
        assert(rest.skip(0) =~= rest);
        while end < n && s[end] != '\n'
            invariant
                start <= end <= n == s@.len(),
                rest == s@.skip(start as int),
                line_end(rest) == (end - start) + line_end(rest.skip(end - start)),
            decreases n - end,
        {
            assert(rest.skip(end - start).skip(1) =~= rest.skip(end - start + 1));
            end += 1;
        }
        let ghost before = out@;
        if end < n {
            assert(line_end(rest) == end - start);
            let mut stop: usize = end;
            if start < stop && s[stop - 1] == '\r' {
                stop -= 1;
            }
            let line = vstd::slice::slice_to_vec(slice_subrange(s, start, stop));
            assert(line@ =~= without_cr(rest.take(end - start)));
            out.push(line);
            assert(rest.skip(end - start + 1) =~= s@.skip(end + 1));
            assert(views(out@) =~= views(before).push(line@));
            assert(views(before) + lines_of(rest) =~= views(out@) + lines_of(s@.skip(end + 1)));
            start = end + 1;
        } else {
            let line = vstd::slice::slice_to_vec(slice_subrange(s, start, n));
            assert(line@ =~= rest);
            out.push(line);
            assert(views(out@) =~= views(before).push(line@));
            assert(lines_of(s@.skip(n as int)) =~= Seq::empty());
            assert(views(before) + lines_of(rest) =~= views(out@) + lines_of(s@.skip(n as int)));
            start = n;
        }
    }
    assert(views(out@) + lines_of(s@.skip(start as int)) =~= views(out@));
    out
}

/// The index of the first white-space character of `s`, or its length if there is none.
pub open spec fn word_end(s: Seq<char>) -> nat
    decreases s.len(),
{
    if s.len() == 0 || is_white(s[0]) {
        0
    } else {
        1 + word_end(s.skip(1))
    }
}

/// A word ends within the text.
pub proof fn lemma_word_end_bound(s: Seq<char>)
    ensures
        word_end(s) <= s.len(),
    decreases s.len(),
{
    if s.len() > 0 && !is_white(s[0]) {
        lemma_word_end_bound(s.skip(1));
    }
}

/// The maximal runs of non-white-space characters of `s`, in order.
pub open spec fn words_of(s: Seq<char>) -> Seq<Seq<char>>
    decreases s.len(),
{
    if s.len() == 0 {
        Seq::empty()
    } else if is_white(s[0]) {
        words_of(s.skip(1))
    } else {
        proof {
            lemma_word_end_bound(s);
        }
        seq![s.take(word_end(s) as int)] + words_of(s.skip(word_end(s) as int))
    }
}

/// The maximal runs of non-white-space characters of `s`, in order.
pub fn words(s: &[char]) -> (r: Vec<Vec<char>>)
    ensures
        views(r@) == words_of(s@),
{
    let mut out: Vec<Vec<char>> = Vec::new();
    let n: usize = s.len();
    let mut start: usize = 0;
    assert(s@.skip(0) =~= s@);
    assert(views(out@) + words_of(s@) =~= words_of(s@));
    while start < n
        invariant
            start <= n == s@.len(),
            views(out@) + words_of(s@.skip(start as int)) == words_of(s@),
        decreases n - start,
    {
        let ghost rest = s@.skip(start as int);
        if white(s[start]) {
            assert(rest.skip(1) =~= s@.skip(start + 1));
            start += 1;
            continue;
        }
        let mut end: usize = start;
        assert(rest.skip(0) =~= rest);
        while end < n && !white(s[end])
            invariant
                start <= end <= n == s@.len(),
                rest == s@.skip(start as int),
                word_end(rest) == (end - start) + word_end(rest.skip(end - start)),
            decreases n - end,
        {
            assert(rest.skip(end - start).skip(1) =~= rest.skip(end - start + 1));
            end += 1;
        }
        assert(word_end(rest) == end - start);
        let ghost before = out@;
        let word = vstd::slice::slice_to_vec(slice_subrange(s, start, end));
        assert(word@ =~= rest.take(end - start));
        out.push(word);
        assert(rest.skip(end - start) =~= s@.skip(end as int));
        assert(views(out@) =~= views(before).push(word@));
        assert(views(before) + words_of(rest) =~= views(out@) + words_of(s@.skip(end as int)));
        assert(end > start) by {
            assert(!is_white(rest[0]));
        }
        start = end;
    }
    assert(views(out@) + words_of(s@.skip(start as int)) =~= views(out@));
    out
}

/// The parts in order, with `sep` between each two of them.
pub open spec fn joined(parts: Seq<Seq<char>>, sep: Seq<char>) -> Seq<char>
    decreases parts.len(),
{
    if parts.len() == 0 {
        Seq::empty()
    } else if parts.len() == 1 {
        parts[0]
    } else {
        joined(parts.drop_last(), sep) + sep + parts.last()
    }
}

/// The parts `from..to`, with `sep` between each two of them.
pub fn join(parts: &Vec<Vec<char>>, from: usize, to: usize, sep: &str) -> (r: Vec<char>)
    requires
        from <= to <= parts@.len(),
    ensures
        r@ == joined(views(parts@).subrange(from as int, to as int), sep@),
{
    let sep_chars = chars_of(sep);
    let ghost all = views(parts@);
    let mut out: Vec<char> = Vec::new();
    let mut i: usize = from;
    while i < to
        invariant
            from <= i <= to <= parts@.len(),
            all == views(parts@),
            sep_chars@ == sep@,
            out@ == joined(all.subrange(from as int, i as int), sep@),
        decreases to - i,
    {
        let ghost before = out@;
        if i > from {
            extend_chars(&mut out, sep_chars.as_slice());
        }
        extend_chars(&mut out, parts[i].as_slice());
        let ghost longer = all.subrange(from as int, i + 1);
        assert(longer.drop_last() =~= all.subrange(from as int, i as int));
        assert(longer.last() == parts@[i as int]@);
        assert(i == from ==> out@ =~= parts@[i as int]@);
        i += 1;
    }
    out
}

// ---------------------------------------------------------------------------
// Replacement
// ---------------------------------------------------------------------------

/// `s` with every occurrence of `from`, taken from the left without overlap,
/// replaced by `to`. An empty `from` replaces nothing.
pub open spec fn replaced(s: Seq<char>, from: Seq<char>, to: Seq<char>) -> Seq<char>
    decreases s.len(),
{
    if from.len() == 0 || s.len() == 0 {
        s
    } else if begins_with(s, from) {
        to + replaced(s.skip(from.len() as int), from, to)
    } else {
        seq![s[0]] + replaced(s.skip(1), from, to)
    }
}

/// `s` with every occurrence of `from` replaced by `to`.
pub fn replace(s: &[char], from: &str, to: &str) -> (r: Vec<char>)
    ensures
        r@ == replaced(s@, from@, to@),
{
    let f = chars_of(from);
    let t = chars_of(to);
    let n: usize = s.len();
    let m: usize = f.len();
    if m == 0 {
        return vstd::slice::slice_to_vec(s);
    }
    let mut out: Vec<char> = Vec::new();
    let mut i: usize = 0;
    assert(s@.skip(0) =~= s@);
    assert(out@ + replaced(s@, from@, to@) =~= replaced(s@, from@, to@));
    while i < n
        invariant
            i <= n == s@.len(),
            m == f@.len() > 0,
            f@ == from@,
            t@ == to@,
            out@ + replaced(s@.skip(i as int), from@, to@) == replaced(s@, from@, to@),
        decreases n - i,
    {
        let ghost rest = s@.skip(i as int);
        let ghost before = out@;
        assert(i + m <= n ==> s@.subrange(i as int, i + m) =~= rest.subrange(0, m as int));
        if stands_at(s, f.as_slice(), i) {
            assert(begins_with(rest, from@));
            extend_chars(&mut out, t.as_slice());
            assert(rest.skip(m as int) =~= s@.skip(i + m));
            assert(before + replaced(rest, from@, to@) =~= out@ + replaced(
                s@.skip(i + m),
                from@,
                to@,
            ));
            i += m;
        } else {
            assert(!begins_with(rest, from@));
            out.push(s[i]);
            assert(rest.skip(1) =~= s@.skip(i + 1));
            assert(before + replaced(rest, from@, to@) =~= out@ + replaced(
                s@.skip(i + 1),
                from@,
                to@,
            ));
            i += 1;
        }
    }
    assert(out@ + replaced(s@.skip(n as int), from@, to@) =~= out@);
    out
}

// ---------------------------------------------------------------------------
// Numbers and padding
// ---------------------------------------------------------------------------

/// The decimal digit `d`.
pub open spec fn digit(d: nat) -> char {
    (48 + d) as char
}

/// `n` in decimal notation.
pub open spec fn decimal(n: nat) -> Seq<char>
    decreases n,
{
    if n < 10 {
        seq![digit(n)]
    } else {
        decimal(n / 10).push(digit(n % 10))
    }
}

/// `n` in decimal notation.
pub fn decimal_of(n: usize) -> (r: Vec<char>)
    ensures
        r@ == decimal(n as nat),
    decreases n,
{
    let d: u8 = 48 + (n % 10) as u8;
    let c = d as char;
    if n < 10 {
        let mut r: Vec<char> = Vec::new();
        r.push(c);
        assert(r@ =~= seq![digit(n as nat)]);
        r
    } else {
        let mut r = decimal_of(n / 10);
        r.push(c);
        r
    }
}

/// `count` spaces.
pub open spec fn spaces(count: int) -> Seq<char> {
    Seq::new(if count > 0 { count as nat } else { 0 }, |i: int| ' ')
}

/// `s` filled up with spaces on its left to at least `width` characters.
pub open spec fn padded_left(s: Seq<char>, width: int) -> Seq<char> {
    spaces(width - s.len()) + s
}

/// `s` filled up with spaces on its right to at least `width` characters.
pub open spec fn padded_right(s: Seq<char>, width: int) -> Seq<char> {
    s + spaces(width - s.len())
}

fn push_spaces(out: &mut Vec<char>, count: usize)
    ensures
        final(out)@ == old(out)@ + spaces(count as int),
{
    let ghost before = out@;
    let mut i: usize = 0;
    assert(before + spaces(0) =~= before);
    while i < count
        invariant
            i <= count,
            out@ == before + spaces(i as int),
        decreases count - i,
    {
        out.push(' ');
        i += 1;
        assert(out@ =~= before + spaces(i as int));
    }
}

/// `s` filled up with spaces on its left to at least `width` characters.
pub fn pad_left(s: &[char], width: usize) -> (r: Vec<char>)
    ensures
        r@ == padded_left(s@, width as int),
{
    let mut out: Vec<char> = Vec::new();
    if s.len() < width {
        push_spaces(&mut out, width - s.len());
    }
    extend_chars(&mut out, s);
    assert(out@ =~= padded_left(s@, width as int));
    out
}

/// `s` filled up with spaces on its right to at least `width` characters.
pub fn pad_right(s: &[char], width: usize) -> (r: Vec<char>)
    ensures
        r@ == padded_right(s@, width as int),
{
    let mut out: Vec<char> = Vec::new();
    extend_chars(&mut out, s);
    if s.len() < width {
        push_spaces(&mut out, width - s.len());
    }
    assert(out@ =~= padded_right(s@, width as int));
    out
}

// ---------------------------------------------------------------------------
// Encoded length
// ---------------------------------------------------------------------------

/// The number of bytes of `s` in UTF-8.
pub open spec fn utf8_len(s: Seq<char>) -> nat {
    encode_utf8(s).len()
}

/// The number of bytes of `s` in UTF-8.
pub fn byte_len(s: &[char]) -> (r: usize)
    ensures
        r == utf8_len(s@),
{
    let t = string_of(s);
    t.as_str().as_bytes().len()
}

// ---------------------------------------------------------------------------
// Unicode properties
// ---------------------------------------------------------------------------

/// The lower-case letter of an ASCII letter; any other character is unchanged.
pub open spec fn ascii_lower(c: char) -> char {
    if 65 <= c as u32 <= 90 {
        ((c as u32) + 32) as char
    } else {
        c
    }
}

/// `s` with its ASCII letters in lower case.
pub open spec fn ascii_lowered(s: Seq<char>) -> Seq<char> {
    Seq::new(s.len(), |i: int| ascii_lower(s[i]))
}

/// `s` with its ASCII letters in lower case.
pub fn lower_ascii(s: &[char]) -> (r: Vec<char>)
    ensures
        r@ == ascii_lowered(s@),
{
    let mut out: Vec<char> = Vec::new();
    let n: usize = s.len();
    let mut i: usize = 0;
    while i < n
        invariant
            i <= n == s@.len(),
            out@ == ascii_lowered(s@).take(i as int),
        decreases n - i,
    {
        let u: u32 = s[i] as u32;
        if 65 <= u && u <= 90 {
            let b: u8 = (u + 32) as u8;
            out.push(b as char);
        } else {
            out.push(s[i]);
        }
        i += 1;
        assert(ascii_lowered(s@).take(i as int) =~= ascii_lowered(s@).take(i - 1).push(
            ascii_lower(s@[i - 1]),
        ));
    }
    assert(out@ =~= ascii_lowered(s@));
    out
}

/// The lower-case equivalent of a text by the Unicode mapping.
pub uninterp spec fn lowercase_of(s: Seq<char>) -> Seq<char>;

/// `str::to_lowercase`: the lower-case equivalent by the Unicode mapping, which
/// on ASCII text is the one of the letters A to Z.
#[verifier::external_body]
pub(crate) fn lowercase(s: &str) -> (r: String)
    ensures
        r@ == lowercase_of(s@),
        is_ascii_chars(s@) ==> r@ == ascii_lowered(s@),
{
    s.to_lowercase()
}

/// Whether a character is an ASCII letter or digit.
pub open spec fn ascii_alphanumeric(c: char) -> bool {
    let u = c as u32;
    48 <= u <= 57 || 65 <= u <= 90 || 97 <= u <= 122
}

/// Whether a character is alphabetic or numeric by Unicode.
pub uninterp spec fn alphanumeric(c: char) -> bool;

/// `char::is_alphanumeric`: alphabetic or numeric by Unicode, which among the
/// ASCII characters are the letters and digits.
#[verifier::external_body]
pub(crate) fn is_alphanumeric(c: char) -> (r: bool)
    ensures
        r == alphanumeric(c),
        c as u32 <= 127 ==> r == ascii_alphanumeric(c),
{
    c.is_alphanumeric()
}

// ---------------------------------------------------------------------------
// Laws
// ---------------------------------------------------------------------------

proof fn lemma_word_end_is(s: Seq<char>, e: int)
    requires
        0 <= e <= s.len(),
        e < s.len() ==> is_white(s[e]),
        forall|i: int| 0 <= i < e ==> !is_white(#[trigger] s[i]),
    ensures
        word_end(s) == e,
    decreases s.len(),
{
    if e > 0 {
        assert(!is_white(s[0]));
        let rest = s.skip(1);
        assert forall|i: int| 0 <= i < e - 1 implies !is_white(#[trigger] rest[i]) by {
            assert(rest[i] == s[i + 1]);
        }
        lemma_word_end_is(rest, e - 1);
    }
}

proof fn lemma_word_end(s: Seq<char>)
    ensures
        word_end(s) <= s.len(),
        word_end(s) < s.len() ==> is_white(s[word_end(s) as int]),
        forall|i: int| 0 <= i < word_end(s) ==> !is_white(#[trigger] s[i]),
    decreases s.len(),
{
    if s.len() > 0 && !is_white(s[0]) {
        lemma_word_end(s.skip(1));
        assert forall|i: int| 0 <= i < word_end(s) implies !is_white(#[trigger] s[i]) by {
            if i > 0 {
                assert(s.skip(1)[i - 1] == s[i]);
            }
        }
    }
}

/// A text without white space is one word, and white space alone holds none.
pub proof fn words_hold_no_white_space(s: Seq<char>)
    ensures
        s.len() > 0 && (forall|i: int| 0 <= i < s.len() ==> !is_white(#[trigger] s[i])) ==> words_of(
            s,
        ) == seq![s],
        is_blank(s) ==> words_of(s) == Seq::<Seq<char>>::empty(),
    decreases s.len(),
{
    if s.len() > 0 {
        if is_blank(s) {
            let rest = s.skip(1);
            assert(is_white(s[0]));
            assert forall|i: int| 0 <= i < rest.len() implies is_white(#[trigger] rest[i]) by {
                assert(rest[i] == s[i + 1]);
            }
            words_hold_no_white_space(rest);
        } else if forall|i: int| 0 <= i < s.len() ==> !is_white(#[trigger] s[i]) {
            lemma_word_end_is(s, s.len() as int);
            assert(!is_white(s[0]));
            assert(s.take(s.len() as int) =~= s);
            assert(s.skip(s.len() as int) =~= Seq::empty());
            assert(words_of(Seq::<char>::empty()) =~= Seq::empty());
            assert(words_of(s) =~= seq![s]);
        }
    }
}

/// White space parts words: the words of a text are those before a white-space
/// character and then those behind it.
pub proof fn white_space_parts_the_words(a: Seq<char>, c: char, b: Seq<char>)
    requires
        is_white(c),
    ensures
        words_of(a.push(c) + b) == words_of(a) + words_of(b),
    decreases a.len(),
{
    let s = a.push(c) + b;
    if a.len() == 0 {
        assert(s.skip(1) =~= b);
        assert(words_of(a) + words_of(b) =~= words_of(b));
    } else if is_white(a[0]) {
        assert(s.skip(1) =~= a.skip(1).push(c) + b);
        white_space_parts_the_words(a.skip(1), c, b);
    } else {
        lemma_word_end(a);
        let e = word_end(a) as int;
        assert(e > 0);
        assert forall|i: int| 0 <= i < e implies !is_white(#[trigger] s[i]) by {
            assert(a[i] == s[i]);
        }
        lemma_word_end_is(s, e);
        assert(s.take(e) =~= a.take(e));
        assert(s.skip(e) =~= a.skip(e).push(c) + b);
        white_space_parts_the_words(a.skip(e), c, b);
        assert(words_of(s) =~= words_of(a) + words_of(b));
    }
}

/// Joining two lists puts the separator once between what the two join to.
pub proof fn joining_is_piecewise(a: Seq<Seq<char>>, b: Seq<Seq<char>>, sep: Seq<char>)
    requires
        a.len() > 0,
        b.len() > 0,
    ensures
        joined(a + b, sep) == joined(a, sep) + sep + joined(b, sep),
        b.len() == 1 ==> joined(b, sep) == b[0],
    decreases b.len(),
{
    let all = a + b;
    assert(all.drop_last() =~= a + b.drop_last());
    assert(all.last() == b.last());
    if b.len() == 1 {
        assert(a + b.drop_last() =~= a);
    } else {
        joining_is_piecewise(a, b.drop_last(), sep);
        assert(joined(all, sep) =~= joined(a, sep) + sep + joined(b, sep));
    }
}

/// Replacing takes the first occurrence and goes on behind it; where there is none
/// the text stays.
pub proof fn occurrences_are_replaced(s: Seq<char>, from: Seq<char>, to: Seq<char>, p: int)
    requires
        from.len() > 0,
        forall|k: int| 0 <= k < p ==> !#[trigger] occurs_at(s, from, k),
    ensures
        0 <= p && occurs_at(s, from, p) ==> replaced(s, from, to) == s.take(p) + to + replaced(
            s.skip(p + from.len()),
            from,
            to,
        ),
        p >= s.len() ==> replaced(s, from, to) == s,
    decreases s.len(),
{
    let m = from.len() as int;
    if s.len() > 0 {
        if p > 0 {
            assert(!occurs_at(s, from, 0));
            assert(!begins_with(s, from));
            let rest = s.skip(1);
            assert forall|k: int| 0 <= k < p - 1 implies !#[trigger] occurs_at(rest, from, k) by {
                if occurs_at(rest, from, k) {
                    assert(rest.subrange(k, k + m) =~= s.subrange(k + 1, k + 1 + m));
                    assert(occurs_at(s, from, k + 1));
                }
            }
            occurrences_are_replaced(rest, from, to, p - 1);
            if occurs_at(s, from, p) {
                assert(rest.subrange(p - 1, p - 1 + m) =~= s.subrange(p, p + m));
                assert(rest.skip(p - 1 + m) =~= s.skip(p + m));
                assert(seq![s[0]] + (rest.take(p - 1) + to + replaced(s.skip(p + m), from, to))
                    =~= s.take(p) + to + replaced(s.skip(p + m), from, to));
            }
            if p >= s.len() {
                assert(seq![s[0]] + rest =~= s);
            }
        } else if p == 0 && occurs_at(s, from, 0) {
            assert(begins_with(s, from));
            assert(s.take(0) + to =~= to);
        }
    }
}

/// What a sequence of digits says.
pub open spec fn number_of(digits: Seq<char>) -> int
    decreases digits.len(),
{
    if digits.len() == 0 {
        0
    } else {
        10 * number_of(digits.drop_last()) + (digits.last() as u32 - '0' as u32)
    }
}

/// A number is written with the digits 0 to 9, which say the number, and begins with 0
/// only where it is 0.
pub proof fn decimals_say_the_number(n: nat)
    ensures
        decimal(n).len() > 0,
        forall|i: int| 0 <= i < decimal(n).len() ==> '0' <= #[trigger] decimal(n)[i] <= '9',
        number_of(decimal(n)) == n,
        n > 0 ==> decimal(n)[0] != '0',
    decreases n,
{
    let last = digit(n % 10);
    assert(last as u32 == 48 + n % 10);
    if n < 10 {
        reveal_with_fuel(number_of, 2);
        assert(decimal(n).drop_last() =~= Seq::empty());
    } else {
        decimals_say_the_number(n / 10);
        assert(decimal(n).drop_last() =~= decimal(n / 10));
        assert(decimal(n).last() == last);
        assert(decimal(n)[0] == decimal(n / 10)[0]);
        assert forall|i: int| 0 <= i < decimal(n).len() implies '0' <= #[trigger] decimal(n)[i]
            <= '9' by {
            if i < decimal(n / 10).len() {
                assert(decimal(n)[i] == decimal(n / 10)[i]);
            }
        }
    }
}

/// Padding adds spaces up to the width, before the text or behind it, and cuts nothing.
pub proof fn padding_fills_with_spaces(s: Seq<char>, width: int)
    ensures
        ({
            let left = padded_left(s, width);
            let right = padded_right(s, width);
            let n = left.len() - s.len();
            &&& left.len() == right.len()
            &&& left.len() == if s.len() < width {
                width
            } else {
                s.len() as int
            }
            &&& left.skip(n) == s
            &&& right.take(s.len() as int) == s
            &&& forall|i: int| 0 <= i < n ==> #[trigger] left[i] == ' '
            &&& forall|i: int| s.len() <= i < right.len() ==> #[trigger] right[i] == ' '
        }),
{
    let left = padded_left(s, width);
    assert(left.skip(left.len() - s.len()) =~= s);
    assert(padded_right(s, width).take(s.len() as int) =~= s);
}

} // verus!
