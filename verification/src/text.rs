//! Characters and strings: the handful of `str` operations the corpus and
//! register readers are written with, stated over `Seq<char>`.

use vstd::prelude::*;

verus! {

/// The Unicode `White_Space` property, which is what `char::is_whitespace`,
/// `str::trim` and `str::split_whitespace` test for.
pub open spec fn is_white(c: char) -> bool {
    ||| ('\u{9}' <= c && c <= '\u{d}')
    ||| c == ' '
    ||| c == '\u{85}'
    ||| c == '\u{a0}'
    ||| c == '\u{1680}'
    ||| ('\u{2000}' <= c && c <= '\u{200a}')
    ||| c == '\u{2028}'
    ||| c == '\u{2029}'
    ||| c == '\u{202f}'
    ||| c == '\u{205f}'
    ||| c == '\u{3000}'
}

/// `char::to_ascii_lowercase`.
pub open spec fn lower(c: char) -> char {
    if 'A' <= c && c <= 'Z' {
        ((c as u32) + 32) as char
    } else {
        c
    }
}

/// `str::to_ascii_lowercase`, character by character.
pub open spec fn lower_seq(s: Seq<char>) -> Seq<char> {
    s.map_values(|c: char| lower(c))
}

/// `str::starts_with`: `p` is a prefix of `s`.
pub open spec fn is_prefix(p: Seq<char>, s: Seq<char>) -> bool {
    p.len() <= s.len() && s.subrange(0, p.len() as int) == p
}

/// The characters of an optional string.
pub open spec fn opt_view(o: Option<String>) -> Option<Seq<char>> {
    match o {
        Some(s) => Some(s@),
        None => None,
    }
}

/// `str::trim_start`.
pub open spec fn trim_start(s: Seq<char>) -> Seq<char>
    decreases s.len(),
{
    if s.len() > 0 && is_white(s[0]) {
        trim_start(s.drop_first())
    } else {
        s
    }
}

/// `str::trim_end`.
pub open spec fn trim_end(s: Seq<char>) -> Seq<char>
    decreases s.len(),
{
    if s.len() > 0 && is_white(s.last()) {
        trim_end(s.drop_last())
    } else {
        s
    }
}

/// `str::trim`.
pub open spec fn trim(s: Seq<char>) -> Seq<char> {
    trim_end(trim_start(s))
}

/// `str::trim_start_matches('"')`.
pub open spec fn unquote_start(s: Seq<char>) -> Seq<char>
    decreases s.len(),
{
    if s.len() > 0 && s[0] == '"' {
        unquote_start(s.drop_first())
    } else {
        s
    }
}

/// `str::trim_end_matches('"')`.
pub open spec fn unquote_end(s: Seq<char>) -> Seq<char>
    decreases s.len(),
{
    if s.len() > 0 && s.last() == '"' {
        unquote_end(s.drop_last())
    } else {
        s
    }
}

/// `str::trim_matches('"')`: every double quote at either end goes.
pub open spec fn unquote(s: Seq<char>) -> Seq<char> {
    unquote_end(unquote_start(s))
}

/// The longest run at the start of `s` holding no whitespace.
pub open spec fn leading_word(s: Seq<char>) -> Seq<char>
    decreases s.len(),
{
    if s.len() == 0 || is_white(s[0]) {
        Seq::empty()
    } else {
        seq![s[0]] + leading_word(s.drop_first())
    }
}

/// What `str::split_whitespace().next().unwrap_or("")` gives: the first
/// whitespace-separated word, or nothing.
pub open spec fn first_word(s: Seq<char>) -> Seq<char> {
    leading_word(trim_start(s))
}

/// The first index at or after `i` where `s` holds `c`, or `s.len()`.
pub open spec fn find_from(s: Seq<char>, c: char, i: int) -> int
    decreases s.len() - i,
{
    if i >= s.len() {
        s.len() as int
    } else if s[i] == c {
        i
    } else {
        find_from(s, c, i + 1)
    }
}

pub proof fn lemma_find_from(s: Seq<char>, c: char, i: int)
    requires
        0 <= i <= s.len(),
    ensures
        i <= find_from(s, c, i) <= s.len(),
        find_from(s, c, i) < s.len() ==> s[find_from(s, c, i)] == c,
        forall|k: int| i <= k < find_from(s, c, i) ==> s[k] != c,
    decreases s.len() - i,
{
    if i < s.len() && s[i] != c {
        lemma_find_from(s, c, i + 1);
    }
}


/// The line of `s` that starts at `i`, as `str::lines` gives it: up to the
/// next `\n`, without a `\r` that stood just before that `\n`.
pub open spec fn line_at(s: Seq<char>, i: int) -> Seq<char> {
    let j = find_from(s, '\n', i);
    let raw = s.subrange(i, j);
    if j < s.len() && raw.len() > 0 && raw.last() == '\r' {
        raw.drop_last()
    } else {
        raw
    }
}

/// Where the line after the one starting at `i` starts.
pub open spec fn after_line(s: Seq<char>, i: int) -> int {
    let j = find_from(s, '\n', i);
    if j < s.len() {
        j + 1
    } else {
        j
    }
}

/// The lines of `s` from index `i` on.
pub open spec fn lines_from(s: Seq<char>, i: int) -> Seq<Seq<char>>
    decreases s.len() - i,
{
    if 0 <= i < s.len() {
        proof {
            lemma_find_from(s, '\n', i);
        }
        seq![line_at(s, i)] + lines_from(s, after_line(s, i))
    } else {
        Seq::empty()
    }
}

/// `str::lines`: a final line ending is optional, and no text has no lines.
pub open spec fn lines(s: Seq<char>) -> Seq<Seq<char>> {
    lines_from(s, 0)
}

/// The bounds of the line that starts at `i`, and where the next one starts.
pub fn line_bounds(v: &[char], i: usize) -> (r: (usize, usize))
    requires
        i < v@.len(),
    ensures
        i <= r.0 <= v@.len(),
        r.1 == after_line(v@, i as int),
        i < r.1 <= v@.len(),
        v@.subrange(i as int, r.0 as int) == line_at(v@, i as int),
        lines_from(v@, i as int) == seq![line_at(v@, i as int)] + lines_from(v@, r.1 as int),
{
    let mut j = i;
    while j < v.len() && v[j] != '\n'
        invariant
            i <= j <= v@.len(),
            find_from(v@, '\n', i as int) == find_from(v@, '\n', j as int),
        decreases v.len() - j,
    {
        j = j + 1;
    }
    proof {
        lemma_find_from(v@, '\n', i as int);
    }
    let next = if j < v.len() {
        j + 1
    } else {
        j
    };
    let end = if j < v.len() && j > i && v[j - 1] == '\r' {
        j - 1
    } else {
        j
    };
    proof {
        let raw = v@.subrange(i as int, j as int);
        if j < v.len() && j > i && v@[j - 1] == '\r' {
            assert(raw.last() == v@[j - 1]);
            assert(raw.drop_last() == v@.subrange(i as int, end as int));
        }
    }
    (end, next)
}

/// `char::is_whitespace`.
pub fn is_whitespace(c: char) -> (r: bool)
    ensures
        r == is_white(c),
{
    ('\u{9}' <= c && c <= '\u{d}') || c == ' ' || c == '\u{85}' || c == '\u{a0}' || c
        == '\u{1680}' || ('\u{2000}' <= c && c <= '\u{200a}') || c == '\u{2028}' || c
        == '\u{2029}' || c == '\u{202f}' || c == '\u{205f}' || c == '\u{3000}'
}

/// `char::to_ascii_lowercase`.
pub fn lower_char(c: char) -> (r: char)
    ensures
        r == lower(c),
{
    if 'A' <= c && c <= 'Z' {
        ((c as u8) + 32) as char
    } else {
        c
    }
}

/// The characters of a string slice.
pub fn chars_of(s: &str) -> (v: Vec<char>)
    ensures
        v@ == s@,
{
    let mut v: Vec<char> = Vec::new();
    for c in it: s.chars()
        invariant
            v@ == it.seq().take(it.index() as int),
            it.seq() == s@,
    {
        v.push(c);
    }
    v
}

/// `String::push`: appends one character at the end.
#[verifier::external_body]
pub(crate) fn push_char(s: &mut String, c: char)
    ensures
        final(s)@ == old(s)@.push(c),
{
    s.push(c)
}

/// Appends `v[lo..hi]` to `s`.
pub fn push_range(s: &mut String, v: &[char], lo: usize, hi: usize)
    requires
        lo <= hi <= v@.len(),
    ensures
        final(s)@ == old(s)@ + v@.subrange(lo as int, hi as int),
{
    let mut i = lo;
    while i < hi
        invariant
            lo <= i <= hi <= v@.len(),
            s@ == old(s)@ + v@.subrange(lo as int, i as int),
        decreases hi - i,
    {
        push_char(s, v[i]);
        assert(v@.subrange(lo as int, i + 1) == v@.subrange(lo as int, i as int).push(v@[i as int]));
        i = i + 1;
    }
}

/// The string holding `v[lo..hi]`.
pub fn string_of_range(v: &[char], lo: usize, hi: usize) -> (s: String)
    requires
        lo <= hi <= v@.len(),
    ensures
        s@ == v@.subrange(lo as int, hi as int),
{
    let mut s = String::new();
    push_range(&mut s, v, lo, hi);
    s
}

/// Whether `v[lo..hi]` holds exactly the characters of `lit`.
pub fn range_eq(v: &[char], lo: usize, hi: usize, lit: &str) -> (r: bool)
    requires
        lo <= hi <= v@.len(),
    ensures
        r == (v@.subrange(lo as int, hi as int) == lit@),
{
    let w = chars_of(lit);
    if hi - lo != w.len() {
        return false;
    }
    let mut k: usize = 0;
    while k < w.len()
        invariant
            lo <= hi <= v@.len(),
            hi - lo == w@.len(),
            w@ == lit@,
            k <= w@.len(),
            forall|m: int| 0 <= m < k ==> v@[lo + m] == w@[m],
        decreases w.len() - k,
    {
        if v[lo + k] != w[k] {
            assert(v@.subrange(lo as int, hi as int)[k as int] != lit@[k as int]);
            return false;
        }
        k = k + 1;
    }
    assert(v@.subrange(lo as int, hi as int) =~= lit@);
    true
}

/// Whether `s` holds exactly the characters of `lit`.
pub fn same_text(s: &str, lit: &str) -> (r: bool)
    ensures
        r == (s@ == lit@),
{
    let v = chars_of(s);
    assert(v@.subrange(0, v@.len() as int) == v@);
    range_eq(&v, 0, v.len(), lit)
}

/// Narrows `lo..hi` to the part of `v` that `str::trim` keeps.
pub fn trim_range(v: &[char], lo: usize, hi: usize) -> (r: (usize, usize))
    requires
        lo <= hi <= v@.len(),
    ensures
        lo <= r.0 <= r.1 <= hi,
        v@.subrange(r.0 as int, r.1 as int) == trim(v@.subrange(lo as int, hi as int)),
{
    let mut a = lo;
    while a < hi && is_whitespace(v[a])
        invariant
            lo <= a <= hi <= v@.len(),
            trim_start(v@.subrange(lo as int, hi as int)) == trim_start(
                v@.subrange(a as int, hi as int),
            ),
        decreases hi - a,
    {
        assert(v@.subrange(a as int, hi as int).drop_first() == v@.subrange(a + 1, hi as int));
        a = a + 1;
    }
    proof {
        if a < hi {
            assert(v@.subrange(a as int, hi as int)[0] == v@[a as int]);
        }
    }
    let mut b = hi;
    while b > a && is_whitespace(v[b - 1])
        invariant
            lo <= a <= b <= hi <= v@.len(),
            trim_start(v@.subrange(lo as int, hi as int)) == v@.subrange(a as int, hi as int),
            trim_end(v@.subrange(a as int, hi as int)) == trim_end(
                v@.subrange(a as int, b as int),
            ),
        decreases b - a,
    {
        assert(v@.subrange(a as int, b as int).drop_last() == v@.subrange(a as int, b - 1));
        b = b - 1;
    }
    proof {
        if b > a {
            assert(v@.subrange(a as int, b as int).last() == v@[b - 1]);
        }
    }
    (a, b)
}

/// Narrows `lo..hi` to the part of `v` that `str::trim_matches('"')` keeps.
pub fn unquote_range(v: &[char], lo: usize, hi: usize) -> (r: (usize, usize))
    requires
        lo <= hi <= v@.len(),
    ensures
        lo <= r.0 <= r.1 <= hi,
        v@.subrange(r.0 as int, r.1 as int) == unquote(v@.subrange(lo as int, hi as int)),
{
    let mut a = lo;
    while a < hi && v[a] == '"'
        invariant
            lo <= a <= hi <= v@.len(),
            unquote_start(v@.subrange(lo as int, hi as int)) == unquote_start(
                v@.subrange(a as int, hi as int),
            ),
        decreases hi - a,
    {
        assert(v@.subrange(a as int, hi as int).drop_first() == v@.subrange(a + 1, hi as int));
        a = a + 1;
    }
    proof {
        if a < hi {
            assert(v@.subrange(a as int, hi as int)[0] == v@[a as int]);
        }
    }
    let mut b = hi;
    while b > a && v[b - 1] == '"'
        invariant
            lo <= a <= b <= hi <= v@.len(),
            unquote_start(v@.subrange(lo as int, hi as int)) == v@.subrange(a as int, hi as int),
            unquote_end(v@.subrange(a as int, hi as int)) == unquote_end(
                v@.subrange(a as int, b as int),
            ),
        decreases b - a,
    {
        assert(v@.subrange(a as int, b as int).drop_last() == v@.subrange(a as int, b - 1));
        b = b - 1;
    }
    proof {
        if b > a {
            assert(v@.subrange(a as int, b as int).last() == v@[b - 1]);
        }
    }
    (a, b)
}

/// The first index in `lo..hi` where `v` holds `c`, or `hi`.
pub fn find_in(v: &[char], lo: usize, hi: usize, c: char) -> (r: usize)
    requires
        lo <= hi <= v@.len(),
    ensures
        r as int == find_from(v@.subrange(lo as int, hi as int), c, 0) + lo,
{
    let ghost s = v@.subrange(lo as int, hi as int);
    let mut k = lo;
    while k < hi && v[k] != c
        invariant
            lo <= k <= hi <= v@.len(),
            s == v@.subrange(lo as int, hi as int),
            find_from(s, c, 0) == find_from(s, c, k - lo),
        decreases hi - k,
    {
        assert(s[k - lo] == v@[k as int]);
        k = k + 1;
    }
    proof {
        if k < hi {
            assert(s[k - lo] == v@[k as int]);
        }
    }
    k
}

/// Whether `p` is a prefix of `s`.
pub fn starts_with(s: &[char], p: &[char]) -> (r: bool)
    ensures
        r == is_prefix(p@, s@),
{
    if p.len() > s.len() {
        return false;
    }
    let mut k: usize = 0;
    while k < p.len()
        invariant
            p@.len() <= s@.len(),
            k <= p@.len(),
            forall|m: int| 0 <= m < k ==> s@[m] == p@[m],
        decreases p.len() - k,
    {
        if s[k] != p[k] {
            assert(s@.subrange(0, p@.len() as int)[k as int] != p@[k as int]);
            return false;
        }
        k = k + 1;
    }
    assert(s@.subrange(0, p@.len() as int) =~= p@);
    true
}

/// The characters of `s` with ASCII upper case letters made lower case.
pub fn lowercase_chars(s: &str) -> (r: Vec<char>)
    ensures
        r@ == lower_seq(s@),
{
    let v = chars_of(s);
    let mut r: Vec<char> = Vec::new();
    for i in 0..v.len()
        invariant
            v@ == s@,
            r@ == lower_seq(v@.take(i as int)),
    {
        r.push(lower_char(v[i]));
        assert(lower_seq(v@.take(i + 1)) =~= lower_seq(v@.take(i as int)).push(lower(v@[i as int])));
    }
    assert(v@.take(v.len() as int) == v@);
    r
}

/// The order of byte strings (and of `OsStr` names, which compare as their
/// bytes): byte by byte, a prefix first.
pub open spec fn lex_le(a: Seq<u8>, b: Seq<u8>) -> bool
    decreases a.len(),
{
    if a.len() == 0 {
        true
    } else if b.len() == 0 {
        false
    } else if a[0] != b[0] {
        a[0] < b[0]
    } else {
        lex_le(a.drop_first(), b.drop_first())
    }
}

pub proof fn lemma_lex_total(a: Seq<u8>, b: Seq<u8>)
    ensures
        lex_le(a, b) || lex_le(b, a),
    decreases a.len(),
{
    if a.len() > 0 && b.len() > 0 && a[0] == b[0] {
        lemma_lex_total(a.drop_first(), b.drop_first());
    }
}

pub proof fn lemma_lex_trans(a: Seq<u8>, b: Seq<u8>, c: Seq<u8>)
    requires
        lex_le(a, b),
        lex_le(b, c),
    ensures
        lex_le(a, c),
    decreases a.len(),
{
    if a.len() > 0 && a[0] == b[0] && b[0] == c[0] {
        lemma_lex_trans(a.drop_first(), b.drop_first(), c.drop_first());
    }
}

/// Whether `a` comes no later than `b` in byte order.
pub fn lex_le_bytes(a: &[u8], b: &[u8]) -> (r: bool)
    ensures
        r == lex_le(a@, b@),
{
    let mut i: usize = 0;
    assert(a@.skip(0) == a@);
    assert(b@.skip(0) == b@);
    while i < a.len() && i < b.len() && a[i] == b[i]
        invariant
            i <= a@.len(),
            i <= b@.len(),
            lex_le(a@, b@) == lex_le(a@.skip(i as int), b@.skip(i as int)),
        decreases a.len() - i,
    {
        assert(a@.skip(i as int).drop_first() == a@.skip(i + 1));
        assert(b@.skip(i as int).drop_first() == b@.skip(i + 1));
        i = i + 1;
    }
    if i == a.len() {
        return true;
    }
    if i == b.len() {
        return false;
    }
    assert(a@.skip(i as int)[0] == a@[i as int]);
    assert(b@.skip(i as int)[0] == b@[i as int]);
    a[i] < b[i]
}

pub proof fn lemma_trim_start(s: Seq<char>)
    ensures
        trim_start(s).len() <= s.len(),
        trim_start(s) == s.subrange(s.len() - trim_start(s).len(), s.len() as int),
        trim_start(s).len() > 0 ==> !is_white(trim_start(s)[0]),
    decreases s.len(),
{
    if s.len() > 0 && is_white(s[0]) {
        lemma_trim_start(s.drop_first());
        assert(s.drop_first().subrange(
            s.drop_first().len() - trim_start(s).len(),
            s.drop_first().len() as int,
        ) =~= s.subrange(s.len() - trim_start(s).len(), s.len() as int));
    } else {
        assert(s.subrange(0, s.len() as int) =~= s);
    }
}

pub proof fn lemma_leading_word(t: Seq<char>)
    ensures
        leading_word(t).len() <= t.len(),
        leading_word(t) == t.subrange(0, leading_word(t).len() as int),
        forall|m: int| 0 <= m < leading_word(t).len() ==> !is_white(#[trigger] t[m]),
        leading_word(t).len() < t.len() ==> is_white(t[leading_word(t).len() as int]),
        t.len() > 0 && !is_white(t[0]) ==> leading_word(t).len() > 0,
    decreases t.len(),
{
    if t.len() > 0 && !is_white(t[0]) {
        let r = t.drop_first();
        lemma_leading_word(r);
        let w = leading_word(t);
        assert(w == seq![t[0]] + leading_word(r));
        assert(w =~= t.subrange(0, w.len() as int));
        assert forall|m: int| 0 <= m < w.len() implies !is_white(#[trigger] t[m]) by {
            if m > 0 {
                assert(t[m] == r[m - 1]);
            }
        }
        if w.len() < t.len() {
            assert(t[w.len() as int] == r[leading_word(r).len() as int]);
        }
    } else {
        assert(t.subrange(0, 0) =~= Seq::<char>::empty());
    }
}

/// `str::split_whitespace`: the maximal runs of non-whitespace, in order.
pub open spec fn words(s: Seq<char>) -> Seq<Seq<char>>
    decreases s.len(),
{
    let t = trim_start(s);
    if t.len() == 0 {
        Seq::empty()
    } else {
        proof {
            lemma_trim_start(s);
            lemma_leading_word(t);
        }
        let w = leading_word(t);
        seq![w] + words(t.subrange(w.len() as int, t.len() as int))
    }
}

} // verus!
