//! RESP replies, read the way a deliberately naive client reads them.
//!
//! A client with a type system that turns two different wire encodings into
//! the same value would hide exactly the bugs this tester exists to find, so a
//! reply is kept as its shape and its bytes and compared that way.

use vstd::prelude::*;
use vstd::utf8::{valid_utf8, decode_utf8};
use crate::text;

verus! {

/// A reply, kept in the shape it arrived in.
#[derive(Debug, PartialEq, Eq)]
pub enum Reply {
    /// `+OK`
    Simple(Vec<u8>),
    /// `-ERR something`
    Error(Vec<u8>),
    /// `:42`
    Int(Vec<u8>),
    /// `$3\r\nfoo`
    Bulk(Vec<u8>),
    /// `=14\r\ntxt:...`, kept apart from a bulk string because it is a
    /// different type on the wire even when it carries the same bytes.
    Verbatim(Vec<u8>),
    /// `!21\r\n...`, a RESP3 bulk error.
    BulkError(Vec<u8>),
    /// `,3.14`
    Double(Vec<u8>),
    /// `#t`
    Bool(Vec<u8>),
    /// `(1234567890`
    BigNumber(Vec<u8>),
    /// `_`, kept apart from `$-1` and `*-1`, the RESP2 spellings of the
    /// same idea.
    Null,
    /// `$-1`
    NullBulk,
    /// `*-1`
    NullArray,
    /// `=-1`: a negative length under the verbatim type, kept with that
    /// type rather than read as a `$-1`.
    NullVerbatim,
    /// `!-1`
    NullBulkError,
    /// `~-1`: a negative count under the set type, kept with that type
    /// rather than read as a `*-1`.
    NullSet,
    /// `>-1`
    NullPush,
    /// `%-1`
    NullMap,
    /// `*2\r\n...`
    Array(Vec<Reply>),
    /// `~2\r\n...`
    SetOf(Vec<Reply>),
    /// `>2\r\n...`
    Push(Vec<Reply>),
    /// `%1\r\n...`, kept as the flat sequence it arrives in.
    MapOf(Vec<Reply>),
}

/// A reply as bytes and nested replies.
pub enum ReplyView {
    Simple(Seq<u8>),
    Error(Seq<u8>),
    Int(Seq<u8>),
    Bulk(Seq<u8>),
    Verbatim(Seq<u8>),
    BulkError(Seq<u8>),
    Double(Seq<u8>),
    Bool(Seq<u8>),
    BigNumber(Seq<u8>),
    Null,
    NullBulk,
    NullArray,
    NullVerbatim,
    NullBulkError,
    NullSet,
    NullPush,
    NullMap,
    Array(Seq<ReplyView>),
    SetOf(Seq<ReplyView>),
    Push(Seq<ReplyView>),
    MapOf(Seq<ReplyView>),
}

/// The view of a reply.
pub open spec fn reply_view(r: Reply) -> ReplyView
    decreases r,
{
    match r {
        Reply::Simple(b) => ReplyView::Simple(b@),
        Reply::Error(b) => ReplyView::Error(b@),
        Reply::Int(b) => ReplyView::Int(b@),
        Reply::Bulk(b) => ReplyView::Bulk(b@),
        Reply::Verbatim(b) => ReplyView::Verbatim(b@),
        Reply::BulkError(b) => ReplyView::BulkError(b@),
        Reply::Double(b) => ReplyView::Double(b@),
        Reply::Bool(b) => ReplyView::Bool(b@),
        Reply::BigNumber(b) => ReplyView::BigNumber(b@),
        Reply::Null => ReplyView::Null,
        Reply::NullBulk => ReplyView::NullBulk,
        Reply::NullArray => ReplyView::NullArray,
        Reply::NullVerbatim => ReplyView::NullVerbatim,
        Reply::NullBulkError => ReplyView::NullBulkError,
        Reply::NullSet => ReplyView::NullSet,
        Reply::NullPush => ReplyView::NullPush,
        Reply::NullMap => ReplyView::NullMap,
        Reply::Array(v) => ReplyView::Array(reply_views(v@)),
        Reply::SetOf(v) => ReplyView::SetOf(reply_views(v@)),
        Reply::Push(v) => ReplyView::Push(reply_views(v@)),
        Reply::MapOf(v) => ReplyView::MapOf(reply_views(v@)),
    }
}

/// The views of a sequence of replies.
pub open spec fn reply_views(s: Seq<Reply>) -> Seq<ReplyView>
    decreases s,
{
    if s.len() == 0 {
        Seq::empty()
    } else {
        reply_views(s.subrange(0, s.len() - 1)).push(reply_view(s[s.len() - 1]))
    }
}

impl View for Reply {
    type V = ReplyView;

    open spec fn view(&self) -> ReplyView {
        reply_view(*self)
    }
}

/// What `String::from_utf8_lossy` gives for bytes that are not valid UTF-8.
pub uninterp spec fn utf8_lossy(b: Seq<u8>) -> Seq<char>;

/// The text a reply's bytes are shown as: their decoding where they are valid
/// UTF-8, and what `String::from_utf8_lossy` makes of them otherwise.
pub open spec fn text_of(b: Seq<u8>) -> Seq<char> {
    if valid_utf8(b) {
        decode_utf8(b)
    } else {
        utf8_lossy(b)
    }
}

/// `String::from_utf8_lossy`. Its documentation promises that valid UTF-8
/// comes back as the text it encodes; for other input the result is left
/// to the name `utf8_lossy` (invalid sequences become U+FFFD).
#[verifier::external_body]
pub(crate) fn show(b: &[u8]) -> (s: String)
    ensures
        valid_utf8(b@) ==> s@ == decode_utf8(b@),
        !valid_utf8(b@) ==> s@ == utf8_lossy(b@),
{
    String::from_utf8_lossy(b).into_owned()
}

/// The hex digit for `d`, a number below 16.
pub open spec fn hex_char(d: int) -> char {
    if d == 0 {
        '0'
    } else if d == 1 {
        '1'
    } else if d == 2 {
        '2'
    } else if d == 3 {
        '3'
    } else if d == 4 {
        '4'
    } else if d == 5 {
        '5'
    } else if d == 6 {
        '6'
    } else if d == 7 {
        '7'
    } else if d == 8 {
        '8'
    } else if d == 9 {
        '9'
    } else if d == 10 {
        'a'
    } else if d == 11 {
        'b'
    } else if d == 12 {
        'c'
    } else if d == 13 {
        'd'
    } else if d == 14 {
        'e'
    } else {
        'f'
    }
}

/// How one byte of a reply's body is written: printable ASCII as itself,
/// except that a backslash and a double quote stand behind a backslash, and
/// any other byte as `\x` and two hex digits.
pub open spec fn byte_text(x: u8) -> Seq<char> {
    if x == 92 {
        seq!['\\', '\\']
    } else if x == 34 {
        seq!['\\', '"']
    } else if 0x20 <= x <= 0x7e {
        seq![x as char]
    } else {
        seq!['\\', 'x', hex_char((x / 16) as int), hex_char((x % 16) as int)]
    }
}

/// The bytes of a body, each written as `byte_text` writes it.
pub open spec fn escaped(b: Seq<u8>) -> Seq<char>
    decreases b.len(),
{
    if b.len() == 0 {
        Seq::empty()
    } else {
        byte_text(b[0]) + escaped(b.subrange(1, b.len() as int))
    }
}

/// A body in double quotes, escaped, so that every byte of it shows and
/// nothing in it can be read as the end of it.
pub open spec fn quoted(b: Seq<u8>) -> Seq<char> {
    seq!['"'] + escaped(b) + seq!['"']
}

/// The one line form of a reply.
pub open spec fn render_view(r: ReplyView) -> Seq<char>
    decreases r,
{
    match r {
        ReplyView::Simple(b) => seq!['+'] + quoted(b),
        ReplyView::Error(b) => seq!['-'] + quoted(b),
        ReplyView::Int(b) => seq![':'] + quoted(b),
        ReplyView::Bulk(b) => seq!['$'] + quoted(b),
        ReplyView::Verbatim(b) => seq!['='] + quoted(b),
        ReplyView::BulkError(b) => seq!['!'] + quoted(b),
        ReplyView::Double(b) => seq![','] + quoted(b),
        ReplyView::Bool(b) => seq!['#'] + quoted(b),
        ReplyView::BigNumber(b) => seq!['('] + quoted(b),
        ReplyView::Null => seq!['_'],
        ReplyView::NullBulk => seq!['$', '-', '1'],
        ReplyView::NullArray => seq!['*', '-', '1'],
        ReplyView::NullVerbatim => seq!['=', '-', '1'],
        ReplyView::NullBulkError => seq!['!', '-', '1'],
        ReplyView::NullSet => seq!['~', '-', '1'],
        ReplyView::NullPush => seq!['>', '-', '1'],
        ReplyView::NullMap => seq!['%', '-', '1'],
        ReplyView::Array(v) => seq!['*', '['] + join_views(v) + seq![']'],
        ReplyView::SetOf(v) => seq!['~', '['] + join_views(v) + seq![']'],
        ReplyView::Push(v) => seq!['>', '['] + join_views(v) + seq![']'],
        ReplyView::MapOf(v) => seq!['%', '['] + join_views(v) + seq![']'],
    }
}

/// The one line forms of `s`, separated by `, `.
pub open spec fn join_views(s: Seq<ReplyView>) -> Seq<char>
    decreases s,
{
    if s.len() == 0 {
        Seq::empty()
    } else if s.len() == 1 {
        render_view(s[0])
    } else {
        render_view(s[0]) + seq![',', ' '] + join_views(s.subrange(1, s.len() as int))
    }
}

pub proof fn lemma_reply_views(s: Seq<Reply>)
    ensures
        reply_views(s).len() == s.len(),
        forall|i: int| 0 <= i < s.len() ==> #[trigger] reply_views(s)[i] == reply_view(s[i]),
    decreases s.len(),
{
    if s.len() > 0 {
        lemma_reply_views(s.subrange(0, s.len() - 1));
    }
}

proof fn lemma_escaped_push(b: Seq<u8>, x: u8)
    ensures
        escaped(b.push(x)) == escaped(b) + byte_text(x),
    decreases b.len(),
{
    let c = b.push(x);
    if b.len() == 0 {
        assert(c.subrange(1, c.len() as int) =~= Seq::<u8>::empty());
        assert(c[0] == x);
        assert(escaped(Seq::<u8>::empty()) =~= Seq::<char>::empty());
        assert(escaped(c) =~= byte_text(x));
    } else {
        let tail = b.subrange(1, b.len() as int);
        assert(c.subrange(1, c.len() as int) =~= tail.push(x));
        lemma_escaped_push(tail, x);
        assert(escaped(c) =~= escaped(b) + byte_text(x));
    }
}

proof fn lemma_join_push(s: Seq<ReplyView>, x: ReplyView)
    requires
        s.len() > 0,
    ensures
        join_views(s.push(x)) == join_views(s) + seq![',', ' '] + render_view(x),
    decreases s.len(),
{
    let c = s.push(x);
    let tail = s.subrange(1, s.len() as int);
    assert(c.subrange(1, c.len() as int) =~= tail.push(x));
    if s.len() == 1 {
        assert(tail.push(x) =~= seq![x]);
        assert(join_views(seq![x]) == render_view(x));
    } else {
        lemma_join_push(tail, x);
        assert(join_views(c) =~= join_views(s) + seq![',', ' '] + render_view(x));
    }
}

/// A string holding one character.
fn string_with(c: char) -> (s: String)
    ensures
        s@ == seq![c],
{
    let mut s = String::new();
    text::push_char(&mut s, c);
    s
}

impl Reply {
    /// A one line form for a report and for comparing.
    ///
    /// This is the only place two replies are turned into text, so two
    /// replies that print the same really are the same as far as anything
    /// downstream is concerned: bodies are quoted with every byte shown, and
    /// a null is spelled so that no body can look like it.
    pub fn render(&self) -> (s: String)
        ensures
            s@ == render_view(self@),
        decreases self,
    {
        match self {
            Reply::Simple(b) => tagged('+', b),
            Reply::Error(b) => tagged('-', b),
            Reply::Int(b) => tagged(':', b),
            Reply::Bulk(b) => tagged('$', b),
            Reply::Verbatim(b) => tagged('=', b),
            Reply::BulkError(b) => tagged('!', b),
            Reply::Double(b) => tagged(',', b),
            Reply::Bool(b) => tagged('#', b),
            Reply::BigNumber(b) => tagged('(', b),
            Reply::Null => string_with('_'),
            Reply::NullBulk => null_of('$'),
            Reply::NullArray => null_of('*'),
            Reply::NullVerbatim => null_of('='),
            Reply::NullBulkError => null_of('!'),
            Reply::NullSet => null_of('~'),
            Reply::NullPush => null_of('>'),
            Reply::NullMap => null_of('%'),
            Reply::Array(v) => bracketed('*', v),
            Reply::SetOf(v) => bracketed('~', v),
            Reply::Push(v) => bracketed('>', v),
            Reply::MapOf(v) => bracketed('%', v),
        }
    }
}

/// `c` followed by `-1`, how a null of the type `c` is written.
fn null_of(c: char) -> (s: String)
    ensures
        s@ == seq![c, '-', '1'],
{
    let mut s = string_with(c);
    text::push_char(&mut s, '-');
    text::push_char(&mut s, '1');
    s
}

/// The hex digit for `d`.
fn hex_digit(d: u8) -> (c: char)
    requires
        d < 16,
    ensures
        c == hex_char(d as int),
{
    match d {
        0 => '0',
        1 => '1',
        2 => '2',
        3 => '3',
        4 => '4',
        5 => '5',
        6 => '6',
        7 => '7',
        8 => '8',
        9 => '9',
        10 => 'a',
        11 => 'b',
        12 => 'c',
        13 => 'd',
        14 => 'e',
        _ => 'f',
    }
}

/// Appends how the byte `x` is written.
fn push_byte(s: &mut String, x: u8)
    ensures
        final(s)@ == old(s)@ + byte_text(x),
{
    if x == 92 {
        text::push_char(s, '\\');
        text::push_char(s, '\\');
    } else if x == 34 {
        text::push_char(s, '\\');
        text::push_char(s, '"');
    } else if 0x20 <= x && x <= 0x7e {
        text::push_char(s, x as char);
    } else {
        text::push_char(s, '\\');
        text::push_char(s, 'x');
        text::push_char(s, hex_digit(x / 16));
        text::push_char(s, hex_digit(x % 16));
    }
    assert(s@ =~= old(s)@ + byte_text(x));
}

/// `c` followed by `b` quoted.
fn tagged(c: char, b: &Vec<u8>) -> (s: String)
    ensures
        s@ == seq![c] + quoted(b@),
{
    let mut s = string_with(c);
    text::push_char(&mut s, '"');
    let mut i: usize = 0;
    assert(b@.subrange(0, 0) =~= Seq::<u8>::empty());
    assert(s@ =~= seq![c, '"'] + escaped(b@.subrange(0, 0)));
    while i < b.len()
        invariant
            i <= b@.len(),
            s@ == seq![c, '"'] + escaped(b@.subrange(0, i as int)),
        decreases b.len() - i,
    {
        proof {
            lemma_escaped_push(b@.subrange(0, i as int), b@[i as int]);
            assert(b@.subrange(0, i as int).push(b@[i as int]) =~= b@.subrange(0, i + 1));
        }
        push_byte(&mut s, b[i]);
        i = i + 1;
    }
    text::push_char(&mut s, '"');
    assert(b@.subrange(0, b@.len() as int) =~= b@);
    assert(s@ =~= seq![c] + quoted(b@));
    s
}

/// `c`, then `[`, the items joined, and `]`.
fn bracketed(c: char, v: &Vec<Reply>) -> (s: String)
    ensures
        s@ == seq![c, '['] + join_views(reply_views(v@)) + seq![']'],
    decreases v@, 1int,
{
    let mut s = string_with(c);
    text::push_char(&mut s, '[');
    let inner = join(v.as_slice());
    s.append(inner.as_str());
    text::push_char(&mut s, ']');
    s
}

/// The one line forms of `v`, separated by `, `.
fn join(v: &[Reply]) -> (s: String)
    ensures
        s@ == join_views(reply_views(v@)),
    decreases v@, 0int,
{
    let mut s = String::new();
    let mut i: usize = 0;
    proof {
        lemma_reply_views(v@.subrange(0, 0));
        assert(reply_views(v@.subrange(0, 0)) =~= Seq::<ReplyView>::empty());
    }
    while i < v.len()
        invariant
            i <= v@.len(),
            s@ == join_views(reply_views(v@.subrange(0, i as int))),
        decreases v.len() - i,
    {
        let ghost pre = v@.subrange(0, i as int);
        let ghost next = v@.subrange(0, i + 1);
        assert(next.subrange(0, i as int) == pre);
        assert(next[i as int] == v@[i as int]);
        assert(reply_views(next) == reply_views(pre).push(reply_view(v@[i as int])));
        proof {
            lemma_reply_views(pre);
            lemma_reply_views(next);
            if i > 0 {
                lemma_join_push(reply_views(pre), reply_view(v@[i as int]));
            } else {
                assert(reply_views(pre) =~= Seq::<ReplyView>::empty());
                assert(reply_views(next) =~= seq![reply_view(v@[i as int])]);
            }
        }
        if i > 0 {
            text::push_char(&mut s, ',');
            text::push_char(&mut s, ' ');
        }
        let item = v[i].render();
        s.append(item.as_str());
        i = i + 1;
    }
    assert(v@.subrange(0, v@.len() as int) == v@);
    s
}

/// The first word of an error reply's text, and nothing for any other reply.
pub open spec fn error_word_view(r: ReplyView) -> Option<Seq<char>> {
    match r {
        ReplyView::Error(b) => Some(text::first_word(text_of(b))),
        ReplyView::BulkError(b) => Some(text::first_word(text_of(b))),
        _ => None,
    }
}

/// The first whitespace-separated word of `s`, or the empty string.
fn first_word_of(s: &str) -> (w: String)
    ensures
        w@ == text::first_word(s@),
{
    let v = text::chars_of(s);
    let mut a: usize = 0;
    assert(v@.subrange(0, v@.len() as int) == v@);
    while a < v.len() && text::is_whitespace(v[a])
        invariant
            a <= v@.len(),
            text::trim_start(v@) == text::trim_start(v@.subrange(a as int, v@.len() as int)),
        decreases v.len() - a,
    {
        assert(v@.subrange(a as int, v@.len() as int).drop_first() == v@.subrange(
            a + 1,
            v@.len() as int,
        ));
        a = a + 1;
    }
    assert(v@.subrange(0, v@.len() as int) == v@);
    proof {
        if a < v.len() {
            assert(v@.subrange(a as int, v@.len() as int)[0] == v@[a as int]);
        }
    }
    let ghost rest = v@.subrange(a as int, v@.len() as int);
    assert(text::trim_start(rest) == rest);
    let mut b = a;
    while b < v.len() && !text::is_whitespace(v[b])
        invariant
            a <= b <= v@.len(),
            text::leading_word(rest) == v@.subrange(a as int, b as int) + text::leading_word(
                v@.subrange(b as int, v@.len() as int),
            ),
        decreases v.len() - b,
    {
        let ghost tail = v@.subrange(b as int, v@.len() as int);
        assert(tail[0] == v@[b as int]);
        assert(tail.drop_first() == v@.subrange(b + 1, v@.len() as int));
        assert(v@.subrange(a as int, b + 1) == v@.subrange(a as int, b as int) + seq![v@[b as int]]);
        b = b + 1;
    }
    proof {
        let tail = v@.subrange(b as int, v@.len() as int);
        if b < v.len() {
            assert(tail[0] == v@[b as int]);
        }
        assert(text::leading_word(tail) == Seq::<char>::empty());
        assert(v@.subrange(a as int, b as int) + Seq::<char>::empty() == v@.subrange(a as int, b as int));
    }
    text::string_of_range(&v, a, b)
}

impl Reply {
    /// The error message's first word, if it is an error. Used to tell "we
    /// said no differently" from "we said yes when they said no", which are
    /// not the same bug.
    pub fn error_word(&self) -> (w: Option<String>)
        ensures
            text::opt_view(w) == error_word_view(self@),
    {
        match self {
            Reply::Error(b) => {
                let t = show(b.as_slice());
                Some(first_word_of(t.as_str()))
            },
            Reply::BulkError(b) => {
                let t = show(b.as_slice());
                Some(first_word_of(t.as_str()))
            },
            _ => None,
        }
    }
}

/// Which of the shapes a reply has.
pub open spec fn shape(r: ReplyView) -> int {
    match r {
        ReplyView::Simple(_) => 0,
        ReplyView::Error(_) => 1,
        ReplyView::Int(_) => 2,
        ReplyView::Bulk(_) => 3,
        ReplyView::Verbatim(_) => 4,
        ReplyView::BulkError(_) => 5,
        ReplyView::Double(_) => 6,
        ReplyView::Bool(_) => 7,
        ReplyView::BigNumber(_) => 8,
        ReplyView::Null => 9,
        ReplyView::NullBulk => 10,
        ReplyView::NullArray => 11,
        ReplyView::Array(_) => 12,
        ReplyView::SetOf(_) => 13,
        ReplyView::Push(_) => 14,
        ReplyView::MapOf(_) => 15,
        ReplyView::NullVerbatim => 16,
        ReplyView::NullBulkError => 17,
        ReplyView::NullSet => 18,
        ReplyView::NullPush => 19,
        ReplyView::NullMap => 20,
    }
}

/// The tag character a reply's one line form starts with.
pub open spec fn tag_char(r: ReplyView) -> char {
    match r {
        ReplyView::Simple(_) => '+',
        ReplyView::Error(_) => '-',
        ReplyView::Int(_) => ':',
        ReplyView::Bulk(_) => '$',
        ReplyView::Verbatim(_) => '=',
        ReplyView::BulkError(_) => '!',
        ReplyView::Double(_) => ',',
        ReplyView::Bool(_) => '#',
        ReplyView::BigNumber(_) => '(',
        ReplyView::Null => '_',
        ReplyView::NullBulk => '$',
        ReplyView::NullArray => '*',
        ReplyView::Array(_) => '*',
        ReplyView::SetOf(_) => '~',
        ReplyView::Push(_) => '>',
        ReplyView::MapOf(_) => '%',
        ReplyView::NullVerbatim => '=',
        ReplyView::NullBulkError => '!',
        ReplyView::NullSet => '~',
        ReplyView::NullPush => '>',
        ReplyView::NullMap => '%',
    }
}

/// A reply that carries bytes.
pub open spec fn is_scalar(r: ReplyView) -> bool {
    0 <= shape(r) <= 8
}

/// A reply that carries nested replies.
pub open spec fn is_aggregate(r: ReplyView) -> bool {
    12 <= shape(r) <= 15
}

/// The bytes a scalar reply carries.
pub open spec fn body(r: ReplyView) -> Seq<u8> {
    match r {
        ReplyView::Simple(b) => b,
        ReplyView::Error(b) => b,
        ReplyView::Int(b) => b,
        ReplyView::Bulk(b) => b,
        ReplyView::Verbatim(b) => b,
        ReplyView::BulkError(b) => b,
        ReplyView::Double(b) => b,
        ReplyView::Bool(b) => b,
        ReplyView::BigNumber(b) => b,
        _ => Seq::empty(),
    }
}

/// The items an aggregate reply carries.
pub open spec fn items(r: ReplyView) -> Seq<ReplyView> {
    match r {
        ReplyView::Array(v) => v,
        ReplyView::SetOf(v) => v,
        ReplyView::Push(v) => v,
        ReplyView::MapOf(v) => v,
        _ => Seq::empty(),
    }
}

proof fn lemma_render_tag(r: ReplyView)
    ensures
        render_view(r).len() > 0,
        render_view(r)[0] == tag_char(r),
        is_scalar(r) ==> render_view(r) == seq![tag_char(r)] + quoted(body(r)),
        is_scalar(r) ==> render_view(r).len() > 1 && render_view(r)[1] == '"',
        is_aggregate(r) ==> render_view(r) == seq![tag_char(r), '['] + join_views(items(r))
            + seq![']'],
        is_aggregate(r) ==> render_view(r).len() > 1 && render_view(r)[1] == '[',
        r is Null ==> render_view(r) == seq!['_'],
        !is_scalar(r) && !is_aggregate(r) && !(r is Null) ==> render_view(r) == seq![
            tag_char(r),
            '-',
            '1',
        ],
{
    if is_scalar(r) {
        assert((seq![tag_char(r)] + quoted(body(r)))[1] == '"');
    }
    if is_aggregate(r) {
        assert((seq![tag_char(r), '['] + join_views(items(r)) + seq![']'])[1] == '[');
    }
}

proof fn lemma_join_front(s: Seq<ReplyView>)
    requires
        s.len() > 0,
    ensures
        join_views(s).len() > 0,
        join_views(s)[0] == tag_char(s[0]),
{
    lemma_render_tag(s[0]);
}

proof fn lemma_hex_char(d: int, e: int)
    requires
        0 <= d < 16,
        0 <= e < 16,
        hex_char(d) == hex_char(e),
    ensures
        d == e,
{
}

/// The way one byte is written is read back as that byte, whatever follows.
proof fn lemma_byte_text_apart(x: u8, y: u8, s: Seq<char>, t: Seq<char>)
    requires
        byte_text(x) + s == byte_text(y) + t,
    ensures
        x == y,
        s == t,
{
    let p = byte_text(x) + s;
    assert(p[0] == byte_text(x)[0]);
    assert(p[0] == byte_text(y)[0]);
    if byte_text(x).len() > 1 && byte_text(y).len() > 1 {
        assert(p[1] == byte_text(x)[1]);
        assert(p[1] == byte_text(y)[1]);
    }
    if byte_text(x).len() == 4 && byte_text(y).len() == 4 {
        assert(p[2] == byte_text(x)[2]);
        assert(p[2] == byte_text(y)[2]);
        assert(p[3] == byte_text(x)[3]);
        assert(p[3] == byte_text(y)[3]);
        lemma_hex_char((x / 16) as int, (y / 16) as int);
        lemma_hex_char((x % 16) as int, (y % 16) as int);
    }
    assert(x == y);
    let n = byte_text(x).len() as int;
    assert(p.subrange(n, p.len() as int) =~= s);
    assert((byte_text(y) + t).subrange(n, p.len() as int) =~= t);
}

proof fn lemma_byte_text_front(x: u8)
    ensures
        byte_text(x).len() > 0,
        byte_text(x)[0] != '"',
{
}

/// An escaped body followed by its closing quote is read back as that body,
/// whatever follows the quote.
proof fn lemma_escaped_apart(b: Seq<u8>, c: Seq<u8>, s: Seq<char>, t: Seq<char>)
    requires
        escaped(b) + seq!['"'] + s == escaped(c) + seq!['"'] + t,
    ensures
        b == c,
        s == t,
    decreases b.len(),
{
    let p = escaped(b) + seq!['"'] + s;
    let q = escaped(c) + seq!['"'] + t;
    if b.len() == 0 {
        assert(p[0] == '"');
        if c.len() > 0 {
            lemma_byte_text_front(c[0]);
            assert(escaped(c)[0] == byte_text(c[0])[0]);
            assert(q[0] == escaped(c)[0]);
        }
        assert(p.subrange(1, p.len() as int) =~= s);
        assert(q.subrange(1, q.len() as int) =~= t);
        assert(b =~= c);
    } else {
        if c.len() == 0 {
            lemma_byte_text_front(b[0]);
            assert(escaped(b)[0] == byte_text(b[0])[0]);
            assert(p[0] == escaped(b)[0]);
            assert(q[0] == '"');
        }
        let b1 = b.subrange(1, b.len() as int);
        let c1 = c.subrange(1, c.len() as int);
        let rb = escaped(b1) + seq!['"'] + s;
        let rc = escaped(c1) + seq!['"'] + t;
        assert(p =~= byte_text(b[0]) + rb);
        assert(q =~= byte_text(c[0]) + rc);
        lemma_byte_text_apart(b[0], c[0], rb, rc);
        lemma_escaped_apart(b1, c1, s, t);
        assert(b =~= c) by {
            assert(b.len() == c.len());
            assert forall|i: int| 0 <= i < b.len() implies b[i] == c[i] by {
                if i > 0 {
                    assert(b[i] == b1[i - 1]);
                    assert(c[i] == c1[i - 1]);
                }
            }
        }
    }
}

/// The first two characters of two one line forms that are read alike tell
/// the same shape.
proof fn lemma_same_shape(a: ReplyView, b: ReplyView, s: Seq<char>, t: Seq<char>)
    requires
        render_view(a) + s == render_view(b) + t,
    ensures
        shape(a) == shape(b),
{
    lemma_render_tag(a);
    lemma_render_tag(b);
    let p = render_view(a) + s;
    assert(p[0] == render_view(a)[0]);
    assert((render_view(b) + t)[0] == render_view(b)[0]);
    if render_view(a).len() > 1 && render_view(b).len() > 1 {
        assert(p[1] == render_view(a)[1]);
        assert((render_view(b) + t)[1] == render_view(b)[1]);
    }
}

/// Two replies of one shape that is not an aggregate, read alike, are the
/// same reply, and what follows them is the same.
proof fn lemma_flat_apart(a: ReplyView, b: ReplyView, s: Seq<char>, t: Seq<char>)
    requires
        render_view(a) + s == render_view(b) + t,
        shape(a) == shape(b),
        !is_aggregate(a),
    ensures
        a == b,
        s == t,
{
    lemma_render_tag(a);
    lemma_render_tag(b);
    let p = render_view(a) + s;
    let q = render_view(b) + t;
    if is_scalar(a) {
        let x = body(a);
        let y = body(b);
        assert(p.subrange(2, p.len() as int) =~= escaped(x) + seq!['"'] + s);
        assert(q.subrange(2, q.len() as int) =~= escaped(y) + seq!['"'] + t);
        lemma_escaped_apart(x, y, s, t);
    } else {
        assert(render_view(a) == render_view(b));
        let n = render_view(a).len() as int;
        assert(p.subrange(n, p.len() as int) =~= s);
        assert(q.subrange(n, q.len() as int) =~= t);
    }
}

/// One line forms are a prefix code: two of them that are read alike, each
/// followed by anything, are the forms of the same reply.
proof fn lemma_render_prefix_free(a: ReplyView, b: ReplyView, s: Seq<char>, t: Seq<char>)
    requires
        render_view(a) + s == render_view(b) + t,
    ensures
        a == b,
        s == t,
    decreases a,
{
    lemma_same_shape(a, b, s, t);
    lemma_render_tag(a);
    lemma_render_tag(b);
    let p = render_view(a) + s;
    let q = render_view(b) + t;
    match a {
        ReplyView::Array(v) => {
            let w = items(b);
            assert(p.subrange(2, p.len() as int) =~= join_views(v) + seq![']'] + s);
            assert(q.subrange(2, q.len() as int) =~= join_views(w) + seq![']'] + t);
            lemma_join_prefix_free(v, w, s, t);
        },
        ReplyView::SetOf(v) => {
            let w = items(b);
            assert(p.subrange(2, p.len() as int) =~= join_views(v) + seq![']'] + s);
            assert(q.subrange(2, q.len() as int) =~= join_views(w) + seq![']'] + t);
            lemma_join_prefix_free(v, w, s, t);
        },
        ReplyView::Push(v) => {
            let w = items(b);
            assert(p.subrange(2, p.len() as int) =~= join_views(v) + seq![']'] + s);
            assert(q.subrange(2, q.len() as int) =~= join_views(w) + seq![']'] + t);
            lemma_join_prefix_free(v, w, s, t);
        },
        ReplyView::MapOf(v) => {
            let w = items(b);
            assert(p.subrange(2, p.len() as int) =~= join_views(v) + seq![']'] + s);
            assert(q.subrange(2, q.len() as int) =~= join_views(w) + seq![']'] + t);
            lemma_join_prefix_free(v, w, s, t);
        },
        _ => {
            lemma_flat_apart(a, b, s, t);
        },
    }
}

/// Items joined and closed by `]` are read back as those items, whatever
/// follows the `]`.
proof fn lemma_join_prefix_free(v: Seq<ReplyView>, w: Seq<ReplyView>, s: Seq<char>, t: Seq<char>)
    requires
        join_views(v) + seq![']'] + s == join_views(w) + seq![']'] + t,
    ensures
        v == w,
        s == t,
    decreases v,
{
    let p = join_views(v) + seq![']'] + s;
    let q = join_views(w) + seq![']'] + t;
    if v.len() == 0 {
        assert(p[0] == ']');
        if w.len() > 0 {
            lemma_join_front(w);
            assert(q[0] == join_views(w)[0]);
        }
        assert(p.subrange(1, p.len() as int) =~= s);
        assert(q.subrange(1, q.len() as int) =~= t);
        assert(v =~= w);
    } else {
        if w.len() == 0 {
            lemma_join_front(v);
            assert(p[0] == join_views(v)[0]);
            assert(q[0] == ']');
        }
        let v1 = v.subrange(1, v.len() as int);
        let w1 = w.subrange(1, w.len() as int);
        let rv = if v.len() == 1 {
            seq![']'] + s
        } else {
            seq![',', ' '] + join_views(v1) + seq![']'] + s
        };
        let rw = if w.len() == 1 {
            seq![']'] + t
        } else {
            seq![',', ' '] + join_views(w1) + seq![']'] + t
        };
        assert(p =~= render_view(v[0]) + rv);
        assert(q =~= render_view(w[0]) + rw);
        lemma_render_prefix_free(v[0], w[0], rv, rw);
        assert(rv[0] == rw[0]);
        if v.len() == 1 && w.len() == 1 {
            assert(rv.subrange(1, rv.len() as int) =~= s);
            assert(rw.subrange(1, rw.len() as int) =~= t);
            assert(v =~= w);
        } else if v.len() > 1 && w.len() > 1 {
            assert(rv.subrange(2, rv.len() as int) =~= join_views(v1) + seq![']'] + s);
            assert(rw.subrange(2, rw.len() as int) =~= join_views(w1) + seq![']'] + t);
            lemma_join_prefix_free(v1, w1, s, t);
            assert(v =~= w) by {
                assert forall|i: int| 0 <= i < v.len() implies v[i] == w[i] by {
                    if i > 0 {
                        assert(v[i] == v1[i - 1]);
                        assert(w[i] == w1[i - 1]);
                    }
                }
            }
        }
    }
}

/// The value of a lower case hex digit, and -1 for any other character.
pub open spec fn hex_value(c: char) -> int {
    if '0' <= c <= '9' {
        c as int - '0' as int
    } else if 'a' <= c <= 'f' {
        c as int - 'a' as int + 10
    } else {
        -1
    }
}

proof fn lemma_hex_digit_value(d: int)
    requires
        0 <= d < 16,
    ensures
        hex_value(hex_char(d)) == d,
{
}

/// How a byte of a body is written reads back as that byte: a printable
/// ASCII character other than `\` and `"` is that character's code, `\\`
/// and `\"` stand for the backslash and the double quote, and `\x` followed
/// by two hex digits stands for the byte whose value they spell.
pub proof fn lemma_byte_text_reads_back(x: u8)
    ensures
        byte_text(x).len() == 1 || byte_text(x).len() == 2 || byte_text(x).len() == 4,
        byte_text(x).len() == 1 ==> byte_text(x)[0] as int == x && 0x20 <= x <= 0x7e && x != 92
            && x != 34,
        byte_text(x).len() == 2 ==> byte_text(x)[0] == '\\' && byte_text(x)[1] as int == x && (x
            == 92 || x == 34),
        byte_text(x).len() == 4 ==> byte_text(x)[0] == '\\' && byte_text(x)[1] == 'x' && 0
            <= hex_value(byte_text(x)[2]) < 16 && 0 <= hex_value(byte_text(x)[3]) < 16 && 16
            * hex_value(byte_text(x)[2]) + hex_value(byte_text(x)[3]) == x,
{
    if byte_text(x).len() == 4 {
        lemma_hex_digit_value((x / 16) as int);
        lemma_hex_digit_value((x % 16) as int);
    }
}

/// Reading a written body back: `\\`, `\"` and `\x` with two hex digits
/// each stand for one byte, any other character for its own code; `None`
/// where the text is not a written body.
pub open spec fn read_body(s: Seq<char>) -> Option<Seq<u8>>
    decreases s.len(),
{
    if s.len() == 0 {
        Some(Seq::empty())
    } else if s[0] != '\\' {
        match read_body(s.subrange(1, s.len() as int)) {
            Some(rest) => Some(seq![s[0] as u8] + rest),
            None => None,
        }
    } else if s.len() >= 2 && (s[1] == '\\' || s[1] == '"') {
        match read_body(s.subrange(2, s.len() as int)) {
            Some(rest) => Some(seq![s[1] as u8] + rest),
            None => None,
        }
    } else if s.len() >= 4 && s[1] == 'x' && 0 <= hex_value(s[2]) && 0 <= hex_value(s[3]) {
        match read_body(s.subrange(4, s.len() as int)) {
            Some(rest) => Some(seq![(16 * hex_value(s[2]) + hex_value(s[3])) as u8] + rest),
            None => None,
        }
    } else {
        None
    }
}

/// Every body reads back, from its written form, as exactly its bytes.
pub proof fn lemma_body_reads_back(b: Seq<u8>)
    ensures
        read_body(escaped(b)) == Some(b),
    decreases b.len(),
{
    if b.len() > 0 {
        let x = b[0];
        let t = byte_text(x);
        let b1 = b.subrange(1, b.len() as int);
        let s = escaped(b);
        lemma_body_reads_back(b1);
        lemma_byte_text_reads_back(x);
        assert(s == t + escaped(b1));
        let n = t.len() as int;
        assert(s.subrange(n, s.len() as int) =~= escaped(b1));
        assert(s[0] == t[0]);
        if n > 1 {
            assert(s[1] == t[1]);
        }
        if n == 4 {
            assert(s[2] == t[2]);
            assert(s[3] == t[3]);
        }
        assert(seq![x] + b1 =~= b);
    }
}

/// What stands between the quotes of a rendered reply that carries bytes
/// reads back as exactly those bytes.
pub proof fn lemma_rendered_body_reads_back(r: ReplyView)
    requires
        is_scalar(r),
    ensures
        render_view(r).len() >= 3,
        read_body(render_view(r).subrange(2, render_view(r).len() - 1)) == Some(body(r)),
{
    lemma_render_tag(r);
    let s = render_view(r);
    assert(s.subrange(2, s.len() - 1) =~= escaped(body(r)));
    lemma_body_reads_back(body(r));
}

/// A one line form starts with one of the type characters, never with `<`.
pub(crate) proof fn lemma_render_first(r: ReplyView)
    ensures
        render_view(r).len() > 0,
        render_view(r)[0] == tag_char(r),
        render_view(r)[0] != '<',
{
    lemma_render_tag(r);
}

/// Two replies print the same exactly when they are the same reply: every
/// byte of a body shows, a body cannot run into what follows it, the items
/// of an aggregate cannot be split another way, and no body reads as a null.
pub proof fn lemma_render_injective(a: ReplyView, b: ReplyView)
    ensures
        (render_view(a) == render_view(b)) == (a == b),
{
    if render_view(a) == render_view(b) {
        assert(render_view(a) + Seq::<char>::empty() =~= render_view(b) + Seq::<char>::empty());
        lemma_render_prefix_free(a, b, Seq::empty(), Seq::empty());
    }
}

/// A copy of the bytes.
fn copy_bytes(b: &Vec<u8>) -> (r: Vec<u8>)
    ensures
        r@ == b@,
{
    let r = b.clone();
    assert(r@ =~= b@);
    r
}

/// Copies of the replies, in order.
fn copy_items(v: &Vec<Reply>) -> (r: Vec<Reply>)
    ensures
        reply_views(r@) == reply_views(v@),
    decreases v@, 0int,
{
    let mut r: Vec<Reply> = Vec::new();
    let mut i: usize = 0;
    while i < v.len()
        invariant
            i <= v@.len(),
            r@.len() == i,
            forall|k: int| 0 <= k < i ==> reply_view(#[trigger] r@[k]) == reply_view(v@[k]),
        decreases v.len() - i,
    {
        let x = copy_reply(&v[i]);
        r.push(x);
        i = i + 1;
    }
    proof {
        lemma_reply_views(r@);
        lemma_reply_views(v@);
        assert(reply_views(r@) =~= reply_views(v@));
    }
    r
}

/// A copy of a reply.
fn copy_reply(x: &Reply) -> (r: Reply)
    ensures
        r@ == x@,
    decreases x, 1int,
{
    match x {
        Reply::Simple(b) => Reply::Simple(copy_bytes(b)),
        Reply::Error(b) => Reply::Error(copy_bytes(b)),
        Reply::Int(b) => Reply::Int(copy_bytes(b)),
        Reply::Bulk(b) => Reply::Bulk(copy_bytes(b)),
        Reply::Verbatim(b) => Reply::Verbatim(copy_bytes(b)),
        Reply::BulkError(b) => Reply::BulkError(copy_bytes(b)),
        Reply::Double(b) => Reply::Double(copy_bytes(b)),
        Reply::Bool(b) => Reply::Bool(copy_bytes(b)),
        Reply::BigNumber(b) => Reply::BigNumber(copy_bytes(b)),
        Reply::Null => Reply::Null,
        Reply::NullBulk => Reply::NullBulk,
        Reply::NullArray => Reply::NullArray,
        Reply::NullVerbatim => Reply::NullVerbatim,
        Reply::NullBulkError => Reply::NullBulkError,
        Reply::NullSet => Reply::NullSet,
        Reply::NullPush => Reply::NullPush,
        Reply::NullMap => Reply::NullMap,
        Reply::Array(v) => Reply::Array(copy_items(v)),
        Reply::SetOf(v) => Reply::SetOf(copy_items(v)),
        Reply::Push(v) => Reply::Push(copy_items(v)),
        Reply::MapOf(v) => Reply::MapOf(copy_items(v)),
    }
}

impl Clone for Reply {
    fn clone(&self) -> (r: Reply)
        ensures
            r@ == self@,
    {
        copy_reply(self)
    }
}

} // verus!
