//! The RESP wire format: how a command is framed on the way out, and how one
//! reply is cut out of the bytes that came back.

use vstd::prelude::*;
use crate::text;
use crate::resp;
use crate::resp::{Reply, ReplyView};
use vstd::utf8::{encode_utf8, is_ascii_chars, is_ascii_chars_encode_utf8, encode_utf8_valid_utf8, encode_utf8_decode_utf8};

verus! {

pub open spec fn is_digit(c: char) -> bool {
    '0' <= c && c <= '9'
}

pub open spec fn all_digits(s: Seq<char>) -> bool {
    forall|i: int| 0 <= i < s.len() ==> is_digit(#[trigger] s[i])
}

/// The number a run of decimal digits writes.
pub open spec fn digits_value(s: Seq<char>) -> int
    decreases s.len(),
{
    if s.len() == 0 {
        0
    } else {
        digits_value(s.drop_last()) * 10 + (s.last() as int - '0' as int)
    }
}

/// `i64::from_str`: an optional `+` or `-`, then at least one decimal digit,
/// and a value that fits in an `i64`.
pub open spec fn parse_i64(s: Seq<char>) -> Option<i64> {
    let signed = s.len() > 0 && (s[0] == '-' || s[0] == '+');
    let d = if signed {
        s.drop_first()
    } else {
        s
    };
    let v = if signed && s[0] == '-' {
        -digits_value(d)
    } else {
        digits_value(d)
    };
    if d.len() > 0 && all_digits(d) && i64::MIN <= v <= i64::MAX {
        Some(v as i64)
    } else {
        None
    }
}

/// The length or count a header line carries: its text, trimmed, read as
/// an `i64`.
pub open spec fn length_of(b: Seq<u8>) -> Option<i64> {
    parse_i64(text::trim(resp::text_of(b)))
}

proof fn lemma_digits_prefix(s: Seq<char>, k: int)
    requires
        all_digits(s),
        0 <= k <= s.len(),
    ensures
        0 <= digits_value(s.take(k)) <= digits_value(s),
    decreases s.len() - k,
{
    if k == s.len() {
        assert(s.take(k) == s);
        lemma_digits_nonneg(s);
    } else {
        lemma_digits_prefix(s, k + 1);
        assert(s.take(k + 1).drop_last() == s.take(k));
        lemma_digits_nonneg(s.take(k));
    }
}

proof fn lemma_digits_nonneg(s: Seq<char>)
    requires
        all_digits(s),
    ensures
        digits_value(s) >= 0,
    decreases s.len(),
{
    if s.len() > 0 {
        lemma_digits_nonneg(s.drop_last());
    }
}

/// The largest magnitude an `i64` can have, that of `i64::MIN`.
const MAGNITUDE: u128 = 9223372036854775808;

/// A header's length or count: `String::from_utf8_lossy(b).trim().parse()`.
pub fn number(b: &[u8]) -> (r: Option<i64>)
    ensures
        r == length_of(b@),
{
    let t = resp::show(b);
    let v = text::chars_of(t.as_str());
    assert(v@.subrange(0, v@.len() as int) == v@);
    let (a, z) = text::trim_range(&v, 0, v.len());
    let ghost s = v@.subrange(a as int, z as int);
    assert(s == text::trim(resp::text_of(b@)));
    if a == z {
        return None;
    }
    assert(s[0] == v@[a as int]);
    let negative = v[a] == '-';
    let start = if v[a] == '-' || v[a] == '+' {
        a + 1
    } else {
        a
    };
    let ghost d = v@.subrange(start as int, z as int);
    assert(d == (if s[0] == '-' || s[0] == '+' {
        s.drop_first()
    } else {
        s
    }));
    if start == z {
        return None;
    }
    let mut acc: u128 = 0;
    let mut i = start;
    assert(d.take(0) == Seq::<char>::empty());
    while i < z
        invariant
            start <= i <= z <= v@.len(),
            d == v@.subrange(start as int, z as int),
            s.len() > 0,
            s == text::trim(resp::text_of(b@)),
            d == (if s[0] == '-' || s[0] == '+' {
                s.drop_first()
            } else {
                s
            }),
            acc == digits_value(d.take(i - start)),
            acc <= MAGNITUDE,
            forall|k: int| 0 <= k < i - start ==> is_digit(#[trigger] d[k]),
        decreases z - i,
    {
        let c = v[i];
        assert(d[i - start] == c);
        if !('0' <= c && c <= '9') {
            assert(!is_digit(d[i - start]));
            return None;
        }
        let next = acc * 10 + ((c as u32) - ('0' as u32)) as u128;
        assert(d.take(i - start + 1).drop_last() == d.take(i - start));
        assert(d.take(i - start + 1).last() == c);
        if next > MAGNITUDE {
            proof {
                if all_digits(d) {
                    lemma_digits_prefix(d, i - start + 1);
                    assert(digits_value(d.take(i - start + 1)) == next);
                    assert(digits_value(d) > MAGNITUDE);
                }
            }
            return None;
        }
        acc = next;
        i = i + 1;
    }
    assert(d.take(z - start) == d);
    assert(all_digits(d));
    if negative {
        if acc == MAGNITUDE {
            Some(i64::MIN)
        } else {
            Some(-(acc as i64))
        }
    } else {
        if acc > 9223372036854775807 {
            None
        } else {
            Some(acc as i64)
        }
    }
}

/// Why a reply could not be read.
pub enum ReadFault {
    /// The server closed the connection before a reply began.
    Closed,
    /// A line with nothing on it where a reply should begin.
    EmptyReply,
    /// A first byte that begins no reply type.
    NotAReplyType(u8),
    /// A length or count that is not an `i64`.
    NotALength(Seq<u8>),
    /// The connection ended inside a bulk string's body.
    Truncated,
}

/// Why a reply could not be read.
pub enum ReadError {
    Closed,
    EmptyReply,
    NotAReplyType(u8),
    NotALength(Vec<u8>),
    Truncated,
}

impl View for ReadError {
    type V = ReadFault;

    open spec fn view(&self) -> ReadFault {
        match self {
            ReadError::Closed => ReadFault::Closed,
            ReadError::EmptyReply => ReadFault::EmptyReply,
            ReadError::NotAReplyType(t) => ReadFault::NotAReplyType(*t),
            ReadError::NotALength(b) => ReadFault::NotALength(b@),
            ReadError::Truncated => ReadFault::Truncated,
        }
    }
}

/// What reading one reply from a buffer came to: the reply and where the
/// bytes after it start, a need for more bytes than have arrived, or a fault.
pub enum Decoded {
    Done(Reply, usize),
    Incomplete,
    Failed(ReadError),
}

pub enum DecodedView {
    Done(ReplyView, int),
    Incomplete,
    Failed(ReadFault),
}

impl View for Decoded {
    type V = DecodedView;

    open spec fn view(&self) -> DecodedView {
        match self {
            Decoded::Done(r, n) => DecodedView::Done(r@, *n as int),
            Decoded::Incomplete => DecodedView::Incomplete,
            Decoded::Failed(e) => DecodedView::Failed(e@),
        }
    }
}

/// What reading a run of replies came to.
pub enum ItemsView {
    Done(Seq<ReplyView>, int),
    Incomplete,
    Failed(ReadFault),
}

/// What reading one line came to.
pub enum LineView {
    Got(Seq<u8>, int),
    Incomplete,
    Closed,
}

/// The first index at or after `i` where `b` holds a `\n`, or `b.len()`.
pub open spec fn newline_from(b: Seq<u8>, i: int) -> int
    decreases b.len() - i,
{
    if i >= b.len() {
        b.len() as int
    } else if b[i] == 10 {
        i
    } else {
        newline_from(b, i + 1)
    }
}

/// `b` without the `\r` and `\n` bytes at its end.
pub open spec fn trim_line_end(b: Seq<u8>) -> Seq<u8>
    decreases b.len(),
{
    if b.len() > 0 && (b.last() == 10 || b.last() == 13) {
        trim_line_end(b.drop_last())
    } else {
        b
    }
}

/// Reading one line at `pos`: the bytes up to and including the next `\n`,
/// less the line ending. With no `\n` yet, more bytes are needed, unless the
/// stream has ended: then what is left is the line, and nothing left means
/// the server closed the connection.
pub open spec fn read_line(b: Seq<u8>, pos: int, eof: bool) -> LineView {
    let j = newline_from(b, pos);
    if j < b.len() {
        LineView::Got(trim_line_end(b.subrange(pos, j + 1)), j + 1)
    } else if !eof {
        LineView::Incomplete
    } else if pos >= b.len() {
        LineView::Closed
    } else {
        LineView::Got(trim_line_end(b.subrange(pos, b.len() as int)), b.len() as int)
    }
}

pub proof fn lemma_newline_from(b: Seq<u8>, i: int)
    requires
        0 <= i <= b.len(),
    ensures
        i <= newline_from(b, i) <= b.len(),
        newline_from(b, i) < b.len() ==> b[newline_from(b, i)] == 10,
        forall|k: int| i <= k < newline_from(b, i) ==> b[k] != 10,
    decreases b.len() - i,
{
    if i < b.len() && b[i] != 10 {
        lemma_newline_from(b, i + 1);
    }
}

pub proof fn lemma_read_line(b: Seq<u8>, pos: int, eof: bool)
    requires
        0 <= pos <= b.len(),
    ensures
        read_line(b, pos, eof) matches LineView::Got(_, p) ==> pos < p <= b.len(),
        eof ==> !(read_line(b, pos, eof) is Incomplete),
{
    lemma_newline_from(b, pos);
}

/// A bulk string of type `tag` holding `body`.
pub open spec fn bulk_of(tag: u8, body: Seq<u8>) -> ReplyView {
    if tag == 36 {
        ReplyView::Bulk(body)
    } else if tag == 61 {
        ReplyView::Verbatim(body)
    } else {
        ReplyView::BulkError(body)
    }
}

/// The null of the bulk type `tag`: `$-1`, `=-1` or `!-1`, each kept with
/// its own type.
pub open spec fn bulk_null(tag: u8) -> ReplyView {
    if tag == 36 {
        ReplyView::NullBulk
    } else if tag == 61 {
        ReplyView::NullVerbatim
    } else {
        ReplyView::NullBulkError
    }
}

/// The null of the aggregate type `tag`: `*-1`, `~-1`, `>-1` or `%-1`, each
/// kept with its own type.
pub open spec fn aggregate_null(tag: u8) -> ReplyView {
    if tag == 42 {
        ReplyView::NullArray
    } else if tag == 126 {
        ReplyView::NullSet
    } else if tag == 62 {
        ReplyView::NullPush
    } else {
        ReplyView::NullMap
    }
}

/// An aggregate of type `tag` holding `items`.
pub open spec fn aggregate_of(tag: u8, items: Seq<ReplyView>) -> ReplyView {
    if tag == 42 {
        ReplyView::Array(items)
    } else if tag == 126 {
        ReplyView::SetOf(items)
    } else if tag == 62 {
        ReplyView::Push(items)
    } else {
        ReplyView::MapOf(items)
    }
}

/// One line reply types: `+ - : , # ( _`.
pub open spec fn is_line_tag(t: u8) -> bool {
    t == 43 || t == 45 || t == 58 || t == 44 || t == 35 || t == 40 || t == 95
}

/// Bulk types, a length line then that many bytes: `$ = !`.
pub open spec fn is_bulk_tag(t: u8) -> bool {
    t == 36 || t == 61 || t == 33
}

/// Aggregate types, a count line then that many replies: `* ~ > %`.
pub open spec fn is_aggregate_tag(t: u8) -> bool {
    t == 42 || t == 126 || t == 62 || t == 37
}

/// A one line reply of type `tag` carrying `rest`.
pub open spec fn line_reply(tag: u8, rest: Seq<u8>) -> ReplyView {
    if tag == 43 {
        ReplyView::Simple(rest)
    } else if tag == 45 {
        ReplyView::Error(rest)
    } else if tag == 58 {
        ReplyView::Int(rest)
    } else if tag == 44 {
        ReplyView::Double(rest)
    } else if tag == 35 {
        ReplyView::Bool(rest)
    } else if tag == 40 {
        ReplyView::BigNumber(rest)
    } else {
        ReplyView::Null
    }
}

/// Reading one reply at `pos` of `b`, where `eof` says whether the stream
/// has ended after `b`. The first byte of the first line is the type; a
/// negative length or count is the null of that very type, so no two
/// spellings of null read as one reply; a map's count is of pairs.
pub open spec fn decode_at(b: Seq<u8>, pos: int, eof: bool) -> DecodedView
    decreases b.len() - pos, 0int, 0int,
{
    if pos < 0 || pos > b.len() {
        DecodedView::Incomplete
    } else {
        match read_line(b, pos, eof) {
            LineView::Incomplete => DecodedView::Incomplete,
            LineView::Closed => DecodedView::Failed(ReadFault::Closed),
            LineView::Got(line, p) => {
                if line.len() == 0 {
                    DecodedView::Failed(ReadFault::EmptyReply)
                } else {
                    let tag = line[0];
                    let rest = line.drop_first();
                    if is_line_tag(tag) {
                        DecodedView::Done(line_reply(tag, rest), p)
                    } else if is_bulk_tag(tag) {
                        match length_of(rest) {
                            None => DecodedView::Failed(ReadFault::NotALength(rest)),
                            Some(n) => if n < 0 {
                                DecodedView::Done(bulk_null(tag), p)
                            } else if p + n + 2 <= b.len() {
                                DecodedView::Done(bulk_of(tag, b.subrange(p, p + n)), p + n + 2)
                            } else if eof {
                                DecodedView::Failed(ReadFault::Truncated)
                            } else {
                                DecodedView::Incomplete
                            },
                        }
                    } else if is_aggregate_tag(tag) {
                        match length_of(rest) {
                            None => DecodedView::Failed(ReadFault::NotALength(rest)),
                            Some(n) => if n < 0 {
                                DecodedView::Done(aggregate_null(tag), p)
                            } else {
                                proof {
                                    lemma_read_line(b, pos, eof);
                                }
                                let count = if tag == 37 {
                                    2 * n
                                } else {
                                    n as int
                                };
                                match decode_items(b, p, eof, count) {
                                    ItemsView::Done(items, q) => DecodedView::Done(
                                        aggregate_of(tag, items),
                                        q,
                                    ),
                                    ItemsView::Incomplete => DecodedView::Incomplete,
                                    ItemsView::Failed(f) => DecodedView::Failed(f),
                                }
                            },
                        }
                    } else {
                        DecodedView::Failed(ReadFault::NotAReplyType(tag))
                    }
                }
            },
        }
    }
}

/// Reading `count` replies one after another from `pos`.
pub open spec fn decode_items(b: Seq<u8>, pos: int, eof: bool, count: int) -> ItemsView
    decreases b.len() - pos, 1int, count,
{
    if pos < 0 || pos > b.len() {
        ItemsView::Incomplete
    } else if count <= 0 {
        ItemsView::Done(Seq::empty(), pos)
    } else {
        match decode_at(b, pos, eof) {
            DecodedView::Done(r, q) => if pos < q <= b.len() {
                match decode_items(b, q, eof, count - 1) {
                    ItemsView::Done(rs, q2) => ItemsView::Done(seq![r] + rs, q2),
                    ItemsView::Incomplete => ItemsView::Incomplete,
                    ItemsView::Failed(f) => ItemsView::Failed(f),
                }
            } else {
                ItemsView::Incomplete
            },
            DecodedView::Incomplete => ItemsView::Incomplete,
            DecodedView::Failed(f) => ItemsView::Failed(f),
        }
    }
}

/// A reply read at `pos` ends after `pos`, inside the buffer; a run of
/// replies ends inside it too; and once the stream has ended, neither asks
/// for more bytes.
pub proof fn lemma_decode_at(b: Seq<u8>, pos: int, eof: bool)
    requires
        0 <= pos <= b.len(),
    ensures
        decode_at(b, pos, eof) matches DecodedView::Done(_, q) ==> pos < q <= b.len(),
        eof ==> !(decode_at(b, pos, eof) is Incomplete),
    decreases b.len() - pos, 0int, 0int,
{
    lemma_read_line(b, pos, eof);
    match read_line(b, pos, eof) {
        LineView::Got(line, p) => {
            if line.len() > 0 && is_aggregate_tag(line[0]) && !is_bulk_tag(line[0]) && !is_line_tag(line[0]) {
                let rest = line.drop_first();
                if let Some(n) = length_of(rest) {
                    if n >= 0 {
                        let count = if line[0] == 37 {
                            2 * n
                        } else {
                            n as int
                        };
                        lemma_decode_items(b, p, eof, count);
                    }
                }
            }
        },
        _ => {},
    }
}

pub proof fn lemma_decode_items(b: Seq<u8>, pos: int, eof: bool, count: int)
    requires
        0 <= pos <= b.len(),
    ensures
        decode_items(b, pos, eof, count) matches ItemsView::Done(_, q) ==> pos <= q <= b.len(),
        eof ==> !(decode_items(b, pos, eof, count) is Incomplete),
    decreases b.len() - pos, 1int, count,
{
    if count > 0 {
        lemma_decode_at(b, pos, eof);
        if let DecodedView::Done(_, q) = decode_at(b, pos, eof) {
            lemma_decode_items(b, q, eof, count - 1);
        }
    }
}

/// `acc` followed by the replies `r` holds, or what else `r` came to.
pub open spec fn prepend_items(acc: Seq<ReplyView>, r: ItemsView) -> ItemsView {
    match r {
        ItemsView::Done(rs, q) => ItemsView::Done(acc + rs, q),
        ItemsView::Incomplete => ItemsView::Incomplete,
        ItemsView::Failed(f) => ItemsView::Failed(f),
    }
}

/// The bytes `b[lo..hi]`.
fn copy_bytes(b: &[u8], lo: usize, hi: usize) -> (v: Vec<u8>)
    requires
        lo <= hi <= b@.len(),
    ensures
        v@ == b@.subrange(lo as int, hi as int),
{
    let mut v: Vec<u8> = Vec::new();
    let mut i = lo;
    while i < hi
        invariant
            lo <= i <= hi <= b@.len(),
            v@ == b@.subrange(lo as int, i as int),
        decreases hi - i,
    {
        v.push(b[i]);
        assert(b@.subrange(lo as int, i + 1) == b@.subrange(lo as int, i as int).push(b@[i as int]));
        i = i + 1;
    }
    v
}

/// Reads one reply at `pos`.
fn decode_from(b: &[u8], pos: usize, eof: bool) -> (r: Decoded)
    requires
        pos <= b@.len(),
    ensures
        r@ == decode_at(b@, pos as int, eof),
    decreases b@.len() - pos,
{
    let mut j = pos;
    while j < b.len() && b[j] != 10
        invariant
            pos <= j <= b@.len(),
            newline_from(b@, pos as int) == newline_from(b@, j as int),
        decreases b.len() - j,
    {
        j = j + 1;
    }
    proof {
        lemma_newline_from(b@, pos as int);
        lemma_read_line(b@, pos as int, eof);
    }
    let next: usize;
    if j < b.len() {
        next = j + 1;
    } else if !eof {
        return Decoded::Incomplete;
    } else if pos == b.len() {
        return Decoded::Failed(ReadError::Closed);
    } else {
        next = b.len();
    }
    let mut e = next;
    while e > pos && (b[e - 1] == 10 || b[e - 1] == 13)
        invariant
            pos <= e <= next <= b@.len(),
            trim_line_end(b@.subrange(pos as int, next as int)) == trim_line_end(
                b@.subrange(pos as int, e as int),
            ),
        decreases e - pos,
    {
        assert(b@.subrange(pos as int, e as int).drop_last() == b@.subrange(pos as int, e - 1));
        e = e - 1;
    }
    proof {
        if e > pos {
            assert(b@.subrange(pos as int, e as int).last() == b@[e - 1]);
        }
    }
    let ghost line = b@.subrange(pos as int, e as int);
    assert(read_line(b@, pos as int, eof) == LineView::Got(line, next as int));
    if e == pos {
        return Decoded::Failed(ReadError::EmptyReply);
    }
    let tag = b[pos];
    assert(line[0] == tag);
    let rest = copy_bytes(b, pos + 1, e);
    assert(rest@ == line.drop_first());
    if tag == 43 || tag == 45 || tag == 58 || tag == 44 || tag == 35 || tag == 40 || tag == 95 {
        let r = if tag == 43 {
            Reply::Simple(rest)
        } else if tag == 45 {
            Reply::Error(rest)
        } else if tag == 58 {
            Reply::Int(rest)
        } else if tag == 44 {
            Reply::Double(rest)
        } else if tag == 35 {
            Reply::Bool(rest)
        } else if tag == 40 {
            Reply::BigNumber(rest)
        } else {
            Reply::Null
        };
        return Decoded::Done(r, next);
    }
    if tag == 36 || tag == 61 || tag == 33 {
        match number(rest.as_slice()) {
            None => {
                return Decoded::Failed(ReadError::NotALength(rest));
            },
            Some(n) => {
                if n < 0 {
                    let r = if tag == 36 {
                        Reply::NullBulk
                    } else if tag == 61 {
                        Reply::NullVerbatim
                    } else {
                        Reply::NullBulkError
                    };
                    return Decoded::Done(r, next);
                }
                if ((b.len() - next) as u64) < (n as u64) + 2 {
                    if eof {
                        return Decoded::Failed(ReadError::Truncated);
                    } else {
                        return Decoded::Incomplete;
                    }
                }
                let stop = next + (n as usize);
                let body = copy_bytes(b, next, stop);
                let r = if tag == 36 {
                    Reply::Bulk(body)
                } else if tag == 61 {
                    Reply::Verbatim(body)
                } else {
                    Reply::BulkError(body)
                };
                return Decoded::Done(r, stop + 2);
            },
        }
    }
    if tag == 42 || tag == 126 || tag == 62 || tag == 37 {
        match number(rest.as_slice()) {
            None => {
                return Decoded::Failed(ReadError::NotALength(rest));
            },
            Some(n) => {
                if n < 0 {
                    let r = if tag == 42 {
                        Reply::NullArray
                    } else if tag == 126 {
                        Reply::NullSet
                    } else if tag == 62 {
                        Reply::NullPush
                    } else {
                        Reply::NullMap
                    };
                    return Decoded::Done(r, next);
                }
                let count: u64 = if tag == 37 {
                    (n as u64) * 2
                } else {
                    n as u64
                };
                let ghost total = if tag == 37 {
                    2 * n
                } else {
                    n as int
                };
                assert(count == total);
                let mut items: Vec<Reply> = Vec::new();
                let mut q = next;
                let mut remaining = count;
                assert(resp::reply_views(items@) =~= Seq::<ReplyView>::empty());
                assert(Seq::<ReplyView>::empty() + Seq::<ReplyView>::empty() =~= Seq::<ReplyView>::empty());
                assert(decode_at(b@, pos as int, eof) == match decode_items(
                    b@,
                    next as int,
                    eof,
                    total,
                ) {
                    ItemsView::Done(its, q) => DecodedView::Done(aggregate_of(tag, its), q),
                    ItemsView::Incomplete => DecodedView::Incomplete,
                    ItemsView::Failed(f) => DecodedView::Failed(f),
                });
                while remaining > 0
                    invariant
                        pos < next <= q <= b@.len(),
                        decode_at(b@, pos as int, eof) == match decode_items(
                            b@,
                            next as int,
                            eof,
                            total,
                        ) {
                            ItemsView::Done(its, q) => DecodedView::Done(aggregate_of(tag, its), q),
                            ItemsView::Incomplete => DecodedView::Incomplete,
                            ItemsView::Failed(f) => DecodedView::Failed(f),
                        },
                        decode_items(b@, next as int, eof, total) == prepend_items(
                            resp::reply_views(items@),
                            decode_items(b@, q as int, eof, remaining as int),
                        ),
                    decreases remaining,
                {
                    let ghost acc = resp::reply_views(items@);
                    match decode_from(b, q, eof) {
                        Decoded::Done(x, q2) => {
                            proof {
                                lemma_decode_at(b@, q as int, eof);
                                match decode_items(b@, q2 as int, eof, remaining - 1) {
                                    ItemsView::Done(rs, _) => {
                                        assert(acc + (seq![x@] + rs) =~= acc.push(x@) + rs);
                                    },
                                    _ => {},
                                }
                            }
                            let ghost old_items = items@;
                            items.push(x);
                            assert(items@.subrange(0, items@.len() - 1) == old_items);
                            q = q2;
                            remaining = remaining - 1;
                        },
                        Decoded::Incomplete => {
                            return Decoded::Incomplete;
                        },
                        Decoded::Failed(err) => {
                            return Decoded::Failed(err);
                        },
                    }
                }
                let r = if tag == 42 {
                    Reply::Array(items)
                } else if tag == 126 {
                    Reply::SetOf(items)
                } else if tag == 62 {
                    Reply::Push(items)
                } else {
                    Reply::MapOf(items)
                };
                return Decoded::Done(r, q);
            },
        }
    }
    Decoded::Failed(ReadError::NotAReplyType(tag))
}

/// Reads the one reply at the start of `buf`, the bytes received so far;
/// `at_eof` says that the stream has ended after them.
///
/// This is what reading one reply off a connection decides: a line at a
/// time, its first byte the type, then a body of the length announced or as
/// many nested replies as announced. `Done` says where the bytes after the
/// reply start; `Incomplete` asks for more bytes, and only before the end.
pub fn decode(buf: &[u8], at_eof: bool) -> (r: Decoded)
    ensures
        r@ == decode_at(buf@, 0, at_eof),
        r matches Decoded::Done(_, n) ==> 0 < n <= buf@.len(),
        at_eof ==> !(r is Incomplete),
{
    proof {
        lemma_decode_at(buf@, 0, at_eof);
    }
    decode_from(buf, 0, at_eof)
}

/// `n` written in decimal, as ASCII digits.
pub open spec fn decimal(n: nat) -> Seq<u8>
    decreases n,
{
    if n < 10 {
        seq![(48 + n) as u8]
    } else {
        decimal(n / 10).push((48 + n % 10) as u8)
    }
}

pub open spec fn crlf() -> Seq<u8> {
    seq![13u8, 10u8]
}

/// One argument as a bulk string: `$`, its length, `\r\n`, its bytes, `\r\n`.
pub open spec fn bulk_frame(a: Seq<u8>) -> Seq<u8> {
    seq![36u8] + decimal(a.len()) + crlf() + a + crlf()
}

/// The arguments as bulk strings, one after another.
pub open spec fn bulk_frames(s: Seq<Seq<u8>>) -> Seq<u8>
    decreases s.len(),
{
    if s.len() == 0 {
        Seq::empty()
    } else {
        bulk_frames(s.drop_last()) + bulk_frame(s.last())
    }
}

/// A command as an array of bulk strings: `*`, the count, `\r\n`, then each
/// argument.
pub open spec fn command_frame(args: Seq<Seq<u8>>) -> Seq<u8> {
    seq![42u8] + decimal(args.len()) + crlf() + bulk_frames(args)
}

/// The UTF-8 bytes of each argument.
pub open spec fn arg_bytes(args: Seq<String>) -> Seq<Seq<u8>> {
    args.map_values(|a: String| encode_utf8(a@))
}

/// Appends `n` in decimal.
fn push_decimal(out: &mut Vec<u8>, n: usize)
    ensures
        final(out)@ == old(out)@ + decimal(n as nat),
    decreases n,
{
    if n >= 10 {
        push_decimal(out, n / 10);
    }
    out.push((48 + n % 10) as u8);
}

/// Appends `\r\n`.
fn push_crlf(out: &mut Vec<u8>)
    ensures
        final(out)@ == old(out)@ + crlf(),
{
    out.push(13);
    out.push(10);
    assert(old(out)@.push(13).push(10) =~= old(out)@ + crlf());
}

/// One command as a RESP array of bulk strings.
///
/// Always an array, never inline, because inline commands take a different
/// path through both servers and this is not the place to be testing that.
pub fn encode_command(args: &[String]) -> (out: Vec<u8>)
    ensures
        out@ == command_frame(arg_bytes(args@)),
{
    let ghost all = arg_bytes(args@);
    let mut out: Vec<u8> = Vec::with_capacity(64);
    out.push(42);
    push_decimal(&mut out, args.len());
    push_crlf(&mut out);
    let ghost head = out@;
    assert(head == seq![42u8] + decimal(args@.len()) + crlf());
    assert(all.take(0) =~= Seq::<Seq<u8>>::empty());
    assert(head + bulk_frames(all.take(0)) =~= head);
    for i in 0..args.len()
        invariant
            all == arg_bytes(args@),
            head == seq![42u8] + decimal(args@.len()) + crlf(),
            out@ == head + bulk_frames(all.take(i as int)),
    {
        let bytes = args[i].as_str().as_bytes();
        assert(bytes@ == all[i as int]);
        let ghost before = out@;
        out.push(36);
        push_decimal(&mut out, bytes.len());
        push_crlf(&mut out);
        let mut k: usize = 0;
        let ghost mid = out@;
        while k < bytes.len()
            invariant
                k <= bytes@.len(),
                out@ == mid + bytes@.take(k as int),
            decreases bytes.len() - k,
        {
            out.push(bytes[k]);
            assert(bytes@.take(k + 1) == bytes@.take(k as int).push(bytes@[k as int]));
            k = k + 1;
        }
        assert(bytes@.take(bytes@.len() as int) == bytes@);
        push_crlf(&mut out);
        proof {
            assert(all.take(i + 1).drop_last() =~= all.take(i as int));
            assert(all.take(i + 1).last() == all[i as int]);
            assert(out@ =~= before + bulk_frame(all[i as int]));
            assert(head + bulk_frames(all.take(i + 1)) =~= head + bulk_frames(all.take(i as int))
                + bulk_frame(all[i as int]));
        }
    }
    assert(all.take(args@.len() as int) =~= all);
    out
}

/// The characters `decimal(n)` spells.
pub open spec fn decimal_chars(n: nat) -> Seq<char> {
    decimal(n).map_values(|b: u8| b as char)
}

proof fn lemma_decimal(n: nat)
    ensures
        decimal(n).len() >= 1,
        forall|i: int| 0 <= i < decimal(n).len() ==> 48 <= #[trigger] decimal(n)[i] < 58,
    decreases n,
{
    if n >= 10 {
        lemma_decimal(n / 10);
    }
}

proof fn lemma_decimal_value(n: nat)
    ensures
        all_digits(decimal_chars(n)),
        digits_value(decimal_chars(n)) == n,
    decreases n,
{
    lemma_decimal(n);
    let c = decimal_chars(n);
    assert forall|i: int| 0 <= i < c.len() implies is_digit(#[trigger] c[i]) by {
        assert(48 <= decimal(n)[i] < 58);
    }
    if n >= 10 {
        lemma_decimal_value(n / 10);
        assert(c.drop_last() =~= decimal_chars(n / 10));
        assert(c.last() == ((48 + n % 10) as u8) as char);
        assert(c.last() as int - '0' as int == n % 10);
        assert((n / 10) * 10 + n % 10 == n) by (nonlinear_arith);
        assert(digits_value(c) == digits_value(c.drop_last()) * 10 + (c.last() as int - '0' as int));
    } else {
        assert(c.drop_last() =~= Seq::<char>::empty());
        assert(c.last() as int - '0' as int == n);
        assert(digits_value(c.drop_last()) == 0);
        assert(digits_value(c) == digits_value(c.drop_last()) * 10 + (c.last() as int - '0' as int));
    }
}

/// The digits of `n` read back as a length give `n`.
proof fn lemma_length_of_decimal(n: nat)
    requires
        n <= i64::MAX,
    ensures
        resp::text_of(decimal(n)) == decimal_chars(n),
        length_of(decimal(n)) == Some(n as i64),
{
    lemma_decimal(n);
    lemma_decimal_value(n);
    let c = decimal_chars(n);
    assert(is_ascii_chars(c)) by {
        assert forall|i: int| 0 <= i < c.len() implies '\0' <= #[trigger] c[i] <= '\u{7f}' by {
            assert(48 <= decimal(n)[i] < 58);
        }
    }
    is_ascii_chars_encode_utf8(c);
    assert(encode_utf8(c) =~= decimal(n)) by {
        assert forall|i: int| 0 <= i < c.len() implies encode_utf8(c)[i] == decimal(n)[i] by {
            assert(c[i] as u8 == encode_utf8(c)[i]);
            assert(48 <= decimal(n)[i] < 58);
        }
    }
    encode_utf8_valid_utf8(c);
    encode_utf8_decode_utf8(c);
    assert(resp::text_of(decimal(n)) == c);
    assert(!text::is_white(c[0])) by {
        assert(48 <= decimal(n)[0] < 58);
    }
    assert(!text::is_white(c.last())) by {
        assert(48 <= decimal(n)[c.len() - 1] < 58);
    }
    assert(text::trim_start(c) == c);
    assert(text::trim_end(c) == c);
    assert(is_digit(c[0]));
}

proof fn lemma_newline_at(b: Seq<u8>, i: int, j: int)
    requires
        0 <= i <= j < b.len(),
        b[j] == 10,
        forall|k: int| i <= k < j ==> b[k] != 10,
    ensures
        newline_from(b, i) == j,
    decreases j - i,
{
    if i < j {
        lemma_newline_at(b, i + 1, j);
    }
}

/// A line `t`, digits, `\r\n` at `pos` is read as `t` and the digits.
proof fn lemma_header_line(b: Seq<u8>, pos: int, t: u8, n: nat, eof: bool)
    requires
        0 <= pos,
        t != 10 && t != 13,
        pos + decimal(n).len() + 3 <= b.len(),
        b.subrange(pos, pos + decimal(n).len() + 3) == seq![t] + decimal(n) + crlf(),
    ensures
        read_line(b, pos, eof) == LineView::Got(seq![t] + decimal(n), pos + decimal(n).len() + 3),
{
    lemma_decimal(n);
    let d = decimal(n);
    let h = seq![t] + d + crlf();
    let j = pos + d.len() + 2;
    assert forall|k: int| pos <= k < j implies b[k] != 10 by {
        assert(b[k] == h[k - pos]);
        if k > pos && k < j - 1 {
            assert(h[k - pos] == d[k - pos - 1]);
        }
    }
    assert(b[j] == h[j - pos]);
    lemma_newline_at(b, pos, j);
    let line = b.subrange(pos, j + 1);
    assert(line == h);
    let h1 = seq![t] + d + seq![13u8];
    let h2 = seq![t] + d;
    assert(h.last() == 10);
    assert(h.drop_last() =~= h1);
    assert(trim_line_end(h) == trim_line_end(h1));
    assert(h1.last() == 13);
    assert(h1.drop_last() =~= h2);
    assert(trim_line_end(h1) == trim_line_end(h2));
    assert(h2.last() == d[d.len() - 1]);
    assert(48 <= d[d.len() - 1] < 58);
    assert(trim_line_end(h2) == h2);
}

/// The bulk strings of `s`.
pub open spec fn bulks(s: Seq<Seq<u8>>) -> Seq<ReplyView> {
    s.map_values(|a: Seq<u8>| ReplyView::Bulk(a))
}

/// A bulk frame at `pos` is read as that bulk string.
proof fn lemma_bulk_item(b: Seq<u8>, pos: int, a: Seq<u8>, eof: bool)
    requires
        0 <= pos,
        a.len() <= i64::MAX,
        pos + bulk_frame(a).len() <= b.len(),
        b.subrange(pos, pos + bulk_frame(a).len()) == bulk_frame(a),
    ensures
        decode_at(b, pos, eof) == DecodedView::Done(
            ReplyView::Bulk(a),
            pos + bulk_frame(a).len(),
        ),
{
    let d = decimal(a.len());
    let f = bulk_frame(a);
    lemma_decimal(a.len());
    lemma_length_of_decimal(a.len());
    let hl: int = d.len() as int + 3;
    assert(b.subrange(pos, pos + hl) == f.subrange(0, hl));
    assert(f.subrange(0, hl) =~= seq![36u8] + d + crlf());
    lemma_header_line(b, pos, 36, a.len(), eof);
    let p = pos + hl;
    let line = seq![36u8] + d;
    assert(line[0] == 36);
    assert(line.drop_first() =~= d);
    assert(b.subrange(p, p + a.len()) == f.subrange(hl, hl + a.len() as int));
    assert(f.subrange(hl, hl + a.len() as int) =~= a);
}

proof fn lemma_frames_front(s: Seq<Seq<u8>>)
    requires
        s.len() > 0,
    ensures
        bulk_frames(s) == bulk_frame(s[0]) + bulk_frames(s.drop_first()),
    decreases s.len(),
{
    if s.len() == 1 {
        assert(s.drop_last() =~= Seq::<Seq<u8>>::empty());
        assert(s.drop_first() =~= Seq::<Seq<u8>>::empty());
        assert(bulk_frames(s.drop_last()) == Seq::<u8>::empty());
        assert(bulk_frames(s.drop_first()) == Seq::<u8>::empty());
        assert(s.last() == s[0]);
        assert(bulk_frames(s) == bulk_frames(s.drop_last()) + bulk_frame(s.last()));
        assert(Seq::<u8>::empty() + bulk_frame(s[0]) =~= bulk_frame(s[0]));
        assert(bulk_frame(s[0]) + Seq::<u8>::empty() =~= bulk_frame(s[0]));
    } else {
        lemma_frames_front(s.drop_last());
        assert(s.drop_last().drop_first() =~= s.drop_first().drop_last());
        assert(s.drop_first().last() == s.last());
        assert(s.drop_last()[0] == s[0]);
        assert(bulk_frames(s) =~= bulk_frame(s[0]) + bulk_frames(s.drop_first()));
    }
}

/// Bulk frames one after another at `pos` are read as those bulk strings.
proof fn lemma_bulk_items(b: Seq<u8>, pos: int, s: Seq<Seq<u8>>, eof: bool)
    requires
        0 <= pos,
        forall|i: int| 0 <= i < s.len() ==> (#[trigger] s[i]).len() <= i64::MAX,
        pos + bulk_frames(s).len() <= b.len(),
        b.subrange(pos, pos + bulk_frames(s).len()) == bulk_frames(s),
    ensures
        decode_items(b, pos, eof, s.len() as int) == ItemsView::Done(
            bulks(s),
            pos + bulk_frames(s).len(),
        ),
    decreases s.len(),
{
    if s.len() == 0 {
        assert(bulks(s) =~= Seq::<ReplyView>::empty());
    } else {
        lemma_frames_front(s);
        let f = bulk_frame(s[0]);
        let rest = s.drop_first();
        let q = pos + f.len();
        assert(b.subrange(pos, q) == bulk_frames(s).subrange(0, f.len() as int));
        assert(bulk_frames(s).subrange(0, f.len() as int) =~= f);
        lemma_bulk_item(b, pos, s[0], eof);
        assert forall|i: int| 0 <= i < rest.len() implies (#[trigger] rest[i]).len() <= i64::MAX by {
            assert(rest[i] == s[i + 1]);
        }
        assert(b.subrange(q, q + bulk_frames(rest).len()) == bulk_frames(s).subrange(
            f.len() as int,
            bulk_frames(s).len() as int,
        ));
        assert(bulk_frames(s).subrange(f.len() as int, bulk_frames(s).len() as int)
            =~= bulk_frames(rest));
        lemma_bulk_items(b, q, rest, eof);
        assert(bulks(s) =~= seq![ReplyView::Bulk(s[0])] + bulks(rest));
    }
}

/// Reading back what `encode_command` wrote: a command's frame, whatever
/// follows it and whether or not the stream ends there, reads as one array
/// of the arguments as bulk strings, and the read stops at the frame's end.
pub proof fn lemma_command_round_trip(args: Seq<Seq<u8>>, rest: Seq<u8>, eof: bool)
    requires
        args.len() <= i64::MAX,
        forall|i: int| 0 <= i < args.len() ==> (#[trigger] args[i]).len() <= i64::MAX,
    ensures
        decode_at(command_frame(args) + rest, 0, eof) == DecodedView::Done(
            ReplyView::Array(bulks(args)),
            command_frame(args).len() as int,
        ),
{
    let f = command_frame(args);
    let b = f + rest;
    let d = decimal(args.len());
    lemma_decimal(args.len());
    lemma_length_of_decimal(args.len());
    let hl: int = d.len() as int + 3;
    assert(b.subrange(0, hl) =~= seq![42u8] + d + crlf());
    lemma_header_line(b, 0, 42, args.len(), eof);
    let line = seq![42u8] + d;
    assert(line[0] == 42);
    assert(line.drop_first() =~= d);
    let fr = bulk_frames(args);
    assert(b.subrange(hl, hl + fr.len() as int) =~= fr);
    lemma_bulk_items(b, hl, args, eof);
}

proof fn lemma_newline_more(b: Seq<u8>, c: Seq<u8>, i: int)
    requires
        0 <= i <= b.len(),
        newline_from(b, i) < b.len(),
    ensures
        newline_from(b + c, i) == newline_from(b, i),
    decreases b.len() - i,
{
    if b[i] != 10 {
        lemma_newline_more(b, c, i + 1);
    }
}

/// Reading does not look past the reply it reads: once the bytes received
/// hold a whole reply, or a fault, more bytes after them, or the end of the
/// stream, change nothing. This is what lets a reader feed bytes in as they
/// arrive.
pub proof fn lemma_decode_more_bytes(b: Seq<u8>, c: Seq<u8>, pos: int, eof: bool)
    requires
        0 <= pos <= b.len(),
        !(decode_at(b, pos, false) is Incomplete),
    ensures
        decode_at(b + c, pos, eof) == decode_at(b, pos, false),
    decreases b.len() - pos, 0int, 0int,
{
    let bc = b + c;
    lemma_newline_from(b, pos);
    let j = newline_from(b, pos);
    assert(j < b.len());
    lemma_newline_more(b, c, pos);
    assert(bc.subrange(pos, j + 1) =~= b.subrange(pos, j + 1));
    assert(read_line(bc, pos, eof) == read_line(b, pos, false));
    lemma_read_line(b, pos, false);
    if let LineView::Got(line, p) = read_line(b, pos, false) {
        if line.len() > 0 {
            let tag = line[0];
            let rest = line.drop_first();
            if !is_line_tag(tag) && is_bulk_tag(tag) {
                if let Some(n) = length_of(rest) {
                    if n >= 0 {
                        assert(p + n + 2 <= b.len());
                        assert(bc.subrange(p, p + n) =~= b.subrange(p, p + n));
                    }
                }
            } else if !is_line_tag(tag) && is_aggregate_tag(tag) {
                if let Some(n) = length_of(rest) {
                    if n >= 0 {
                        let count = if tag == 37 {
                            2 * n
                        } else {
                            n as int
                        };
                        lemma_decode_items_more_bytes(b, c, p, eof, count);
                    }
                }
            }
        }
    }
}

pub proof fn lemma_decode_items_more_bytes(b: Seq<u8>, c: Seq<u8>, pos: int, eof: bool, count: int)
    requires
        0 <= pos <= b.len(),
        !(decode_items(b, pos, false, count) is Incomplete),
    ensures
        decode_items(b + c, pos, eof, count) == decode_items(b, pos, false, count),
    decreases b.len() - pos, 1int, count,
{
    if count > 0 {
        lemma_decode_more_bytes(b, c, pos, eof);
        if let DecodedView::Done(_, q) = decode_at(b, pos, false) {
            lemma_decode_at(b, pos, false);
            lemma_decode_items_more_bytes(b, c, q, eof, count - 1);
        }
    }
}

/// The type byte a reply is written with on the wire.
pub open spec fn type_byte(r: ReplyView) -> u8 {
    match r {
        ReplyView::Simple(_) => 43,
        ReplyView::Error(_) => 45,
        ReplyView::Int(_) => 58,
        ReplyView::Bulk(_) => 36,
        ReplyView::Verbatim(_) => 61,
        ReplyView::BulkError(_) => 33,
        ReplyView::Double(_) => 44,
        ReplyView::Bool(_) => 35,
        ReplyView::BigNumber(_) => 40,
        ReplyView::Null => 95,
        ReplyView::NullBulk => 36,
        ReplyView::NullArray => 42,
        ReplyView::NullVerbatim => 61,
        ReplyView::NullBulkError => 33,
        ReplyView::NullSet => 126,
        ReplyView::NullPush => 62,
        ReplyView::NullMap => 37,
        ReplyView::Array(_) => 42,
        ReplyView::SetOf(_) => 126,
        ReplyView::Push(_) => 62,
        ReplyView::MapOf(_) => 37,
    }
}

proof fn lemma_trim_line_end(b: Seq<u8>)
    ensures
        trim_line_end(b).len() <= b.len(),
        trim_line_end(b) == b.subrange(0, trim_line_end(b).len() as int),
    decreases b.len(),
{
    if b.len() > 0 && (b.last() == 10 || b.last() == 13) {
        lemma_trim_line_end(b.drop_last());
        assert(b.drop_last().subrange(0, trim_line_end(b).len() as int) =~= b.subrange(
            0,
            trim_line_end(b).len() as int,
        ));
    } else {
        assert(b.subrange(0, b.len() as int) =~= b);
    }
}

/// A reply read at `pos` carries the type of the byte it started with.
pub proof fn lemma_decode_keeps_type(b: Seq<u8>, pos: int, eof: bool)
    requires
        0 <= pos <= b.len(),
    ensures
        decode_at(b, pos, eof) matches DecodedView::Done(r, _) ==> pos < b.len() && type_byte(r)
            == b[pos],
{
    lemma_newline_from(b, pos);
    if let LineView::Got(line, p) = read_line(b, pos, eof) {
        let j = newline_from(b, pos);
        let raw = if j < b.len() {
            b.subrange(pos, j + 1)
        } else {
            b.subrange(pos, b.len() as int)
        };
        assert(line == trim_line_end(raw));
        lemma_trim_line_end(raw);
        if line.len() > 0 {
            assert(line[0] == raw[0]);
            assert(raw[0] == b[pos]);
        }
    }
}

/// Replies that begin with different type bytes read as different replies:
/// no two wire encodings, the spellings of null among them, are made into
/// one value.
pub proof fn lemma_decode_keeps_types_apart(b1: Seq<u8>, b2: Seq<u8>, eof1: bool, eof2: bool)
    requires
        b1.len() > 0,
        b2.len() > 0,
        b1[0] != b2[0],
        decode_at(b1, 0, eof1) is Done,
        decode_at(b2, 0, eof2) is Done,
    ensures
        decode_at(b1, 0, eof1)->Done_0 != decode_at(b2, 0, eof2)->Done_0,
{
    lemma_decode_keeps_type(b1, 0, eof1);
    lemma_decode_keeps_type(b2, 0, eof2);
}


/// Replies that each read whole where the one before ends are read, as a
/// run, as exactly those replies, ending where the last one ends.
proof fn lemma_items_in_place(
    b: Seq<u8>,
    ends: Seq<int>,
    replies: Seq<ReplyView>,
    eof: bool,
    k: int,
)
    requires
        replies.len() + 1 == ends.len(),
        0 <= k <= replies.len(),
        0 <= ends[k] <= b.len(),
        forall|i: int|
            0 <= i < replies.len() ==> decode_at(b, ends[i], eof) == DecodedView::Done(
                #[trigger] replies[i],
                ends[i + 1],
            ),
    ensures
        decode_items(b, ends[k], eof, replies.len() - k) == ItemsView::Done(
            replies.subrange(k, replies.len() as int),
            ends[replies.len() as int],
        ),
    decreases replies.len() - k,
{
    if k < replies.len() {
        assert(decode_at(b, ends[k], eof) == DecodedView::Done(replies[k], ends[k + 1]));
        lemma_decode_at(b, ends[k], eof);
        lemma_items_in_place(b, ends, replies, eof, k + 1);
        assert(seq![replies[k]] + replies.subrange(k + 1, replies.len() as int) =~= replies.subrange(
            k,
            replies.len() as int,
        ));
    } else {
        assert(replies.subrange(k, replies.len() as int) =~= Seq::<ReplyView>::empty());
    }
}

/// The count line of an aggregate of type `t` counting `n` is read as such.
proof fn lemma_count_header(b: Seq<u8>, t: u8, n: nat, eof: bool)
    requires
        n <= i64::MAX,
        t != 10 && t != 13,
        b.len() >= decimal(n).len() + 3,
        b.subrange(0, decimal(n).len() + 3int) == seq![t] + decimal(n) + crlf(),
    ensures
        read_line(b, 0, eof) == LineView::Got(seq![t] + decimal(n), decimal(n).len() + 3int),
        (seq![t] + decimal(n)).len() > 0,
        (seq![t] + decimal(n))[0] == t,
        length_of((seq![t] + decimal(n)).drop_first()) == Some(n as i64),
{
    lemma_decimal(n);
    lemma_length_of_decimal(n);
    lemma_header_line(b, 0, t, n, eof);
    assert((seq![t] + decimal(n)).drop_first() =~= decimal(n));
}

/// A map header `%n` followed by 2n replies, each read whole where the one
/// before it ends, reads as a map holding exactly those 2n replies and ends
/// right after the last of them: a map counts pairs, not replies. With
/// `%0` nothing after the header is read.
pub proof fn lemma_map_reads_pairs(
    b: Seq<u8>,
    n: nat,
    ends: Seq<int>,
    replies: Seq<ReplyView>,
    eof: bool,
)
    requires
        n <= i64::MAX,
        replies.len() == 2 * n,
        ends.len() == 2 * n + 1,
        b.len() >= decimal(n).len() + 3,
        b.subrange(0, decimal(n).len() + 3int) == seq![37u8] + decimal(n) + crlf(),
        ends[0] == decimal(n).len() + 3,
        forall|i: int|
            0 <= i < 2 * n ==> decode_at(b, ends[i], eof) == DecodedView::Done(
                #[trigger] replies[i],
                ends[i + 1],
            ),
    ensures
        decode_at(b, 0, eof) == DecodedView::Done(ReplyView::MapOf(replies), ends[2 * n as int]),
{
    lemma_count_header(b, 37, n, eof);
    lemma_items_in_place(b, ends, replies, eof, 0);
    assert(replies.subrange(0, replies.len() as int) =~= replies);
}

/// An array, set or push header counting `n`, followed by n replies each
/// read whole where the one before it ends, reads as that aggregate holding
/// exactly those replies and ends right after the last of them.
pub proof fn lemma_aggregate_reads_items(
    b: Seq<u8>,
    t: u8,
    n: nat,
    ends: Seq<int>,
    replies: Seq<ReplyView>,
    eof: bool,
)
    requires
        t == 42 || t == 126 || t == 62,
        n <= i64::MAX,
        replies.len() == n,
        ends.len() == n + 1,
        b.len() >= decimal(n).len() + 3,
        b.subrange(0, decimal(n).len() + 3int) == seq![t] + decimal(n) + crlf(),
        ends[0] == decimal(n).len() + 3,
        forall|i: int|
            0 <= i < n ==> decode_at(b, ends[i], eof) == DecodedView::Done(
                #[trigger] replies[i],
                ends[i + 1],
            ),
    ensures
        decode_at(b, 0, eof) == DecodedView::Done(
            if t == 42 {
                ReplyView::Array(replies)
            } else if t == 126 {
                ReplyView::SetOf(replies)
            } else {
                ReplyView::Push(replies)
            },
            ends[n as int],
        ),
{
    lemma_count_header(b, t, n, eof);
    lemma_items_in_place(b, ends, replies, eof, 0);
    assert(replies.subrange(0, replies.len() as int) =~= replies);
}


/// A one line reply, its type byte, then text holding no CR and no LF, then
/// CRLF, reads as the reply of that type carrying exactly that text (`_`,
/// the RESP3 null, carries none), and ends right after the CRLF, whatever
/// follows.
pub proof fn lemma_line_reply_reads(t: u8, text: Seq<u8>, rest: Seq<u8>, eof: bool)
    requires
        t == 43 || t == 45 || t == 58 || t == 44 || t == 35 || t == 40 || t == 95,
        forall|i: int| 0 <= i < text.len() ==> #[trigger] text[i] != 10 && text[i] != 13,
    ensures
        decode_at(seq![t] + text + crlf() + rest, 0, eof) == DecodedView::Done(
            if t == 43 {
                ReplyView::Simple(text)
            } else if t == 45 {
                ReplyView::Error(text)
            } else if t == 58 {
                ReplyView::Int(text)
            } else if t == 44 {
                ReplyView::Double(text)
            } else if t == 35 {
                ReplyView::Bool(text)
            } else if t == 40 {
                ReplyView::BigNumber(text)
            } else {
                ReplyView::Null
            },
            text.len() + 3int,
        ),
{
    let b = seq![t] + text + crlf() + rest;
    let j: int = text.len() + 2int;
    assert(b[j] == 10);
    assert forall|k: int| 0 <= k < j implies b[k] != 10 by {
        if 1 <= k <= text.len() {
            assert(b[k] == text[k - 1]);
        }
    }
    lemma_newline_at(b, 0, j);
    let raw = b.subrange(0, j + 1);
    let line = seq![t] + text;
    assert(raw =~= line + crlf());
    assert(raw.drop_last() =~= line.push(13u8));
    assert(raw.drop_last().drop_last() =~= line);
    assert(line.last() != 10 && line.last() != 13) by {
        if text.len() > 0 {
            assert(line.last() == text[text.len() - 1]);
        }
    }
    assert(trim_line_end(line) == line);
    assert(trim_line_end(raw.drop_last()) == line);
    assert(trim_line_end(raw) == line);
    assert(line[0] == t);
    assert(line.drop_first() =~= text);
}

/// A bulk reply of type `$`, `=` or `!`: its type byte, the length of its
/// body in decimal, CRLF, the body, CRLF, reads as the reply of that type
/// carrying exactly that body, whatever bytes the body holds, and ends
/// right after the closing CRLF.
pub proof fn lemma_bulk_reply_reads(t: u8, body: Seq<u8>, rest: Seq<u8>, eof: bool)
    requires
        t == 36 || t == 61 || t == 33,
        body.len() <= i64::MAX,
    ensures
        decode_at(seq![t] + decimal(body.len()) + crlf() + body + crlf() + rest, 0, eof)
            == DecodedView::Done(
            if t == 36 {
                ReplyView::Bulk(body)
            } else if t == 61 {
                ReplyView::Verbatim(body)
            } else {
                ReplyView::BulkError(body)
            },
            decimal(body.len()).len() + body.len() + 5int,
        ),
{
    let d = decimal(body.len());
    let b = seq![t] + d + crlf() + body + crlf() + rest;
    lemma_decimal(body.len());
    lemma_length_of_decimal(body.len());
    let hl: int = d.len() as int + 3;
    assert(b.subrange(0, hl) =~= seq![t] + d + crlf());
    lemma_header_line(b, 0, t, body.len(), eof);
    let line = seq![t] + d;
    assert(line[0] == t);
    assert(line.drop_first() =~= d);
    assert(b.subrange(hl, hl + body.len() as int) =~= body);
}


proof fn lemma_length_of_minus_one()
    ensures
        length_of(seq![45u8, 49u8]) == Some(-1i64),
{
    let c = seq!['-', '1'];
    assert(is_ascii_chars(c));
    is_ascii_chars_encode_utf8(c);
    assert(encode_utf8(c) =~= seq![45u8, 49u8]) by {
        assert(c[0] as u8 == encode_utf8(c)[0]);
        assert(c[1] as u8 == encode_utf8(c)[1]);
    }
    encode_utf8_valid_utf8(c);
    encode_utf8_decode_utf8(c);
    assert(resp::text_of(seq![45u8, 49u8]) == c);
    assert(text::trim_start(c) == c);
    assert(text::trim_end(c) == c);
    let d = c.drop_first();
    assert(d =~= seq!['1']);
    assert(d.drop_last() =~= Seq::<char>::empty());
    assert(digits_value(d.drop_last()) == 0);
    assert(digits_value(d) == 1);
    assert(is_digit(d[0]));
    assert(all_digits(d));
}

/// A length or count of `-1` under any bulk or aggregate type reads as the
/// null of that very type, five bytes long: `$-1` a null bulk string, `=-1`
/// a null verbatim string, `!-1` a null bulk error, `*-1` a null array,
/// `~-1` a null set, `>-1` a null push and `%-1` a null map.
pub proof fn lemma_null_reads(t: u8, rest: Seq<u8>, eof: bool)
    requires
        t == 36 || t == 61 || t == 33 || t == 42 || t == 126 || t == 62 || t == 37,
    ensures
        decode_at(seq![t, 45u8, 49u8, 13u8, 10u8] + rest, 0, eof) == DecodedView::Done(
            if t == 36 {
                ReplyView::NullBulk
            } else if t == 61 {
                ReplyView::NullVerbatim
            } else if t == 33 {
                ReplyView::NullBulkError
            } else if t == 42 {
                ReplyView::NullArray
            } else if t == 126 {
                ReplyView::NullSet
            } else if t == 62 {
                ReplyView::NullPush
            } else {
                ReplyView::NullMap
            },
            5,
        ),
{
    let b = seq![t, 45u8, 49u8, 13u8, 10u8] + rest;
    assert(b[4] == 10);
    assert(b[0] != 10 && b[1] != 10 && b[2] != 10 && b[3] != 10);
    lemma_newline_at(b, 0, 4);
    let raw = b.subrange(0, 5);
    let line = seq![t, 45u8, 49u8];
    assert(raw.drop_last() =~= line.push(13u8));
    assert(raw.drop_last().drop_last() =~= line);
    assert(trim_line_end(line) == line);
    assert(trim_line_end(raw.drop_last()) == line);
    assert(trim_line_end(raw) == line);
    assert(line[0] == t);
    assert(line.drop_first() =~= seq![45u8, 49u8]);
    lemma_length_of_minus_one();
}


/// The one line form of a reply read from the wire starts with the very
/// type byte the reply arrived with, so a report shows which RESP type each
/// server answered with.
pub proof fn lemma_printed_type_is_wire_type(b: Seq<u8>, eof: bool)
    requires
        decode_at(b, 0, eof) is Done,
    ensures
        b.len() > 0,
        resp::render_view(decode_at(b, 0, eof)->Done_0)[0] as int == b[0] as int,
{
    let r = decode_at(b, 0, eof)->Done_0;
    lemma_decode_keeps_type(b, 0, eof);
    resp::lemma_render_first(r);
    assert(resp::tag_char(r) as int == type_byte(r) as int);
}

} // verus!
