//! Corpus files, and the register of divergences already agreed to.
//!
//! A corpus file is a list of commands, one per line, written the way they
//! would be typed into redis-cli. There are no expected answers in it: the
//! expected answer is whatever Redis says.

use vstd::prelude::*;
use crate::text;

verus! {

/// Why a line could not be split into arguments.
pub enum SplitFault {
    EndsInBackslash,
    QuoteNeverClosed,
}

impl SplitFault {
    pub open spec fn message(self) -> Seq<char> {
        match self {
            SplitFault::EndsInBackslash => "a line ended in a backslash"@,
            SplitFault::QuoteNeverClosed => "a quote was never closed"@,
        }
    }
}

/// The character an escape inside quotes stands for: `\n`, `\r` and `\t`
/// are the control characters, anything else stands for itself.
pub open spec fn unescape(c: char) -> char {
    if c == 'n' {
        '\n'
    } else if c == 'r' {
        '\r'
    } else if c == 't' {
        '\t'
    } else {
        c
    }
}

/// Splitting `s` from index `i` on, with `args` already split off, `cur`
/// the argument being read, whether a quote is open, and whether the current
/// argument has begun (a pair of quotes begins one, even an empty one).
pub open spec fn split_from(
    s: Seq<char>,
    i: int,
    args: Seq<Seq<char>>,
    cur: Seq<char>,
    quoted: bool,
    started: bool,
) -> Result<Seq<Seq<char>>, SplitFault>
    decreases s.len() - i,
{
    if i < 0 || i >= s.len() {
        if quoted {
            Err(SplitFault::QuoteNeverClosed)
        } else if started || cur.len() > 0 {
            Ok(args.push(cur))
        } else {
            Ok(args)
        }
    } else {
        let c = s[i];
        if c == '"' {
            split_from(s, i + 1, args, cur, !quoted, true)
        } else if c == '\\' && quoted {
            if i + 1 < s.len() {
                split_from(s, i + 2, args, cur.push(unescape(s[i + 1])), quoted, started)
            } else {
                Err(SplitFault::EndsInBackslash)
            }
        } else if text::is_white(c) && !quoted {
            if started || cur.len() > 0 {
                split_from(s, i + 1, args.push(cur), Seq::empty(), quoted, false)
            } else {
                split_from(s, i + 1, args, cur, quoted, started)
            }
        } else {
            split_from(s, i + 1, args, cur.push(c), quoted, true)
        }
    }
}

/// The arguments of a corpus line, with double quotes respected.
pub open spec fn split_args(s: Seq<char>) -> Result<Seq<Seq<char>>, SplitFault> {
    split_from(s, 0, Seq::empty(), Seq::empty(), false, false)
}

/// The characters of each string.
pub open spec fn string_views(v: Seq<String>) -> Seq<Seq<char>> {
    v.map_values(|a: String| a@)
}

/// Split a line into arguments, respecting double quotes.
///
/// Quotes matter more than they look like they should: empty values, values
/// with spaces in them and values that are only whitespace cannot be written
/// down without a way to quote them.
pub fn split(line: &str) -> (r: Result<Vec<String>, String>)
    ensures
        r is Ok <==> split_args(line@) is Ok,
        r matches Ok(a) ==> split_args(line@) == Ok::<_, SplitFault>(string_views(a@)),
        r matches Err(e) ==> (split_args(line@) matches Err(f) && e@ == f.message()),
{
    let v = text::chars_of(line);
    assert(v@.subrange(0, v@.len() as int) == v@);
    split_range(&v, 0, v.len())
}

/// `split` on the characters `v[lo..hi]`.
fn split_range(v: &[char], lo: usize, hi: usize) -> (r: Result<Vec<String>, String>)
    requires
        lo <= hi <= v@.len(),
    ensures
        ({
            let s = v@.subrange(lo as int, hi as int);
            &&& r is Ok <==> split_args(s) is Ok
            &&& r matches Ok(a) ==> split_args(s) == Ok::<_, SplitFault>(string_views(a@))
            &&& r matches Err(e) ==> (split_args(s) matches Err(f) && e@ == f.message())
        }),
{
    let ghost s = v@.subrange(lo as int, hi as int);
    let mut args: Vec<String> = Vec::new();
    let mut cur = String::new();
    let mut quoted = false;
    let mut started = false;
    let mut i: usize = lo;
    assert(string_views(args@) =~= Seq::<Seq<char>>::empty());
    while i < hi
        invariant
            lo <= i <= hi <= v@.len(),
            s == v@.subrange(lo as int, hi as int),
            split_args(s) == split_from(s, i - lo, string_views(args@), cur@, quoted, started),
        decreases hi - i,
    {
        let c = v[i];
        assert(s[i - lo] == c);
        if c == '"' {
            quoted = !quoted;
            started = true;
            i = i + 1;
        } else if c == '\\' && quoted {
            if i + 1 < hi {
                let e = v[i + 1];
                assert(s[i + 1 - lo] == e);
                let u = if e == 'n' {
                    '\n'
                } else if e == 'r' {
                    '\r'
                } else if e == 't' {
                    '\t'
                } else {
                    e
                };
                text::push_char(&mut cur, u);
                i = i + 2;
            } else {
                return Err(String::from_str("a line ended in a backslash"));
            }
        } else if text::is_whitespace(c) && !quoted {
            if started || !cur.as_str().is_empty() {
                let ghost old_args = string_views(args@);
                let mut done = String::new();
                std::mem::swap(&mut done, &mut cur);
                args.push(done);
                assert(string_views(args@) =~= old_args.push(done@));
                started = false;
            }
            i = i + 1;
        } else {
            text::push_char(&mut cur, c);
            started = true;
            i = i + 1;
        }
    }
    if quoted {
        return Err(String::from_str("a quote was never closed"));
    }
    if started || !cur.as_str().is_empty() {
        let ghost old_args = string_views(args@);
        args.push(cur);
        assert(string_views(args@) =~= old_args.push(cur@));
    }
    Ok(args)
}

/// One command out of a corpus file, with the line it came from so a failure
/// report points at something that can be opened.
pub struct Step {
    pub line: usize,
    pub args: Vec<String>,
}

/// A step as a line number and the arguments' characters.
pub struct StepView {
    pub line: int,
    pub args: Seq<Seq<char>>,
}

impl View for Step {
    type V = StepView;

    open spec fn view(&self) -> StepView {
        StepView { line: self.line as int, args: string_views(self.args@) }
    }
}

/// The commands of a corpus file, in the order they stand in it.
pub struct Corpus {
    pub steps: Vec<Step>,
}

impl View for Corpus {
    type V = Seq<StepView>;

    open spec fn view(&self) -> Seq<StepView> {
        self.steps@.map_values(|s: Step| s@)
    }
}

/// A corpus line that could not be split, by its number counted from 1.
pub struct CorpusError {
    pub line: usize,
    pub message: String,
}

/// The steps of the lines `ls[k..]`, the line `ls[j]` being line `j + 1` of
/// the file: blank lines and lines starting with `#` are skipped, so is a
/// line that splits into no argument, and the first line that does not
/// split is the error.
pub open spec fn corpus_steps(ls: Seq<Seq<char>>, k: int) -> Result<
    Seq<StepView>,
    (int, SplitFault),
>
    decreases ls.len() - k,
{
    if k < 0 || k >= ls.len() {
        Ok(Seq::empty())
    } else {
        let line = text::trim(ls[k]);
        if line.len() == 0 || line[0] == '#' {
            corpus_steps(ls, k + 1)
        } else {
            match split_args(line) {
                Err(f) => Err((k + 1, f)),
                Ok(args) => match corpus_steps(ls, k + 1) {
                    Err(e) => Err(e),
                    Ok(rest) => Ok(
                        if args.len() > 0 {
                            seq![StepView { line: k + 1, args }] + rest
                        } else {
                            rest
                        },
                    ),
                },
            }
        }
    }
}

/// The steps of a corpus file's text.
pub open spec fn corpus_of(t: Seq<char>) -> Result<Seq<StepView>, (int, SplitFault)> {
    corpus_steps(text::lines(t), 0)
}

/// `acc` followed by what `rest` holds, or the error of `rest`.
pub open spec fn after<A, E>(acc: Seq<A>, rest: Result<Seq<A>, E>) -> Result<Seq<A>, E> {
    match rest {
        Ok(r) => Ok(acc + r),
        Err(e) => Err(e),
    }
}

impl Corpus {
    /// The commands of a corpus file, given its text.
    pub fn from_text(t: &str) -> (r: Result<Corpus, CorpusError>)
        ensures
            r is Ok <==> corpus_of(t@) is Ok,
            r matches Ok(c) ==> corpus_of(t@) == Ok::<_, (int, SplitFault)>(c@),
            r matches Err(e) ==> (corpus_of(t@) matches Err((n, f)) && e.line == n
                && e.message@ == f.message()),
    {
        let v = text::chars_of(t);
        let ghost ls = text::lines(v@);
        let mut steps: Vec<Step> = Vec::new();
        let mut i: usize = 0;
        let mut k: usize = 0;
        assert(ls.skip(0) == ls);
        assert(steps@.map_values(|s: Step| s@) =~= Seq::<StepView>::empty());
        while i < v.len()
            invariant
                v@ == t@,
                ls == text::lines(v@),
                k <= i <= v@.len(),
                k <= ls.len(),
                ls.skip(k as int) == text::lines_from(v@, i as int),
                corpus_of(v@) == after(
                    steps@.map_values(|s: Step| s@),
                    corpus_steps(ls, k as int),
                ),
            decreases v.len() - i,
        {
            let (end, next) = text::line_bounds(&v, i);
            let ghost line = text::line_at(v@, i as int);
            assert(ls.skip(k as int).len() > 0);
            assert(ls[k as int] == line) by {
                assert(ls.skip(k as int)[0] == ls[k as int]);
            }
            assert(ls.skip(k + 1) =~= text::lines_from(v@, next as int)) by {
                assert(ls.skip(k + 1) =~= ls.skip(k as int).drop_first());
            }
            let (a, b) = text::trim_range(&v, i, end);
            assert(v@.subrange(a as int, b as int) == text::trim(line));
            if a == b {
            } else if v[a] == '#' {
                assert(text::trim(line)[0] == v@[a as int]);
            } else {
                assert(text::trim(line)[0] == v@[a as int]);
                match split_range(&v, a, b) {
                    Err(e) => {
                        return Err(CorpusError { line: k + 1, message: e });
                    },
                    Ok(args) => {
                        if args.len() > 0 {
                            let ghost old_steps = steps@.map_values(|s: Step| s@);
                            let step = Step { line: k + 1, args };
                            steps.push(step);
                            assert(steps@.map_values(|s: Step| s@) =~= old_steps.push(step@));
                            assert(string_views(step.args@).len() > 0);
                            proof {
                                match corpus_steps(ls, k + 1) {
                                    Ok(rest) => {
                                        assert(old_steps.push(step@) + rest =~= old_steps + (
                                        seq![step@] + rest));
                                    },
                                    Err(_) => {},
                                }
                            }
                        }
                    },
                }
            }
            i = next;
            k = k + 1;
        }
        assert(ls.skip(k as int).len() == 0);
        assert(corpus_steps(ls, k as int) == Ok::<_, (int, SplitFault)>(Seq::<StepView>::empty()));
        assert(steps@.map_values(|s: Step| s@) + Seq::<StepView>::empty() =~= steps@.map_values(
            |s: Step| s@,
        ));
        Ok(Corpus { steps })
    }
}

/// Why a register did not load.
pub enum RegisterFault {
    /// A divergence without a corpus, a command and a non-empty reason.
    Incomplete,
    /// A line that is not a table header and holds no `=`.
    NotKeyValue(Seq<char>),
    /// A key other than `corpus`, `command` and `reason`.
    NoSuchField(Seq<char>),
}

impl RegisterFault {
    pub open spec fn message(self) -> Seq<char> {
        match self {
            RegisterFault::Incomplete => "every divergence needs a corpus, a command and a reason"@,
            RegisterFault::NotKeyValue(line) => "not a key and a value: "@ + line,
            RegisterFault::NoSuchField(key) => "no such field: "@ + key,
        }
    }
}

/// What reading a register has gathered so far: the divergences already
/// complete, and the fields of the one being read.
pub struct RegisterState {
    pub excused: Seq<(Seq<char>, Seq<char>)>,
    pub corpus: Option<Seq<char>>,
    pub command: Option<Seq<char>>,
    pub reason: Option<Seq<char>>,
}

pub open spec fn fresh_state(excused: Seq<(Seq<char>, Seq<char>)>) -> RegisterState {
    RegisterState { excused, corpus: None, command: None, reason: None }
}

/// Closing the divergence being read: nothing to close, or all three fields
/// with a reason that is not empty.
pub open spec fn close_divergence(st: RegisterState) -> Result<RegisterState, RegisterFault> {
    match (st.corpus, st.command, st.reason) {
        (None, None, None) => Ok(st),
        (Some(c), Some(cmd), Some(r)) => if r.len() > 0 {
            Ok(fresh_state(st.excused.push((c, cmd))))
        } else {
            Err(RegisterFault::Incomplete)
        },
        _ => Err(RegisterFault::Incomplete),
    }
}

/// Reading one line of a register.
pub open spec fn register_line(raw: Seq<char>, st: RegisterState) -> Result<
    RegisterState,
    RegisterFault,
> {
    let line = text::trim(raw);
    if line.len() == 0 || line[0] == '#' {
        Ok(st)
    } else if line == "[[divergence]]"@ {
        close_divergence(st)
    } else {
        let e = text::find_from(line, '=', 0);
        if e >= line.len() {
            Err(RegisterFault::NotKeyValue(line))
        } else {
            let key = text::trim(line.subrange(0, e));
            let value = text::unquote(text::trim(line.subrange(e + 1, line.len() as int)));
            if key == "corpus"@ {
                Ok(RegisterState { corpus: Some(value), ..st })
            } else if key == "command"@ {
                Ok(RegisterState { command: Some(value), ..st })
            } else if key == "reason"@ {
                Ok(RegisterState { reason: Some(value), ..st })
            } else {
                Err(RegisterFault::NoSuchField(key))
            }
        }
    }
}

/// Reading the lines `ls[k..]` from state `st`, closing the last divergence
/// at the end.
pub open spec fn register_lines(ls: Seq<Seq<char>>, k: int, st: RegisterState) -> Result<
    Seq<(Seq<char>, Seq<char>)>,
    RegisterFault,
>
    decreases ls.len() - k,
{
    if k < 0 || k >= ls.len() {
        match close_divergence(st) {
            Ok(s2) => Ok(s2.excused),
            Err(f) => Err(f),
        }
    } else {
        match register_line(ls[k], st) {
            Ok(s2) => register_lines(ls, k + 1, s2),
            Err(f) => Err(f),
        }
    }
}

/// The divergences a register file's text excuses, as (corpus, command
/// prefix) pairs in the order they stand in it.
pub open spec fn register_of(t: Seq<char>) -> Result<Seq<(Seq<char>, Seq<char>)>, RegisterFault> {
    register_lines(text::lines(t), 0, fresh_state(Seq::empty()))
}

/// Reading the lines `ls[k..end]` from state `st`, without closing the
/// divergence being read at the end.
pub open spec fn run_lines(ls: Seq<Seq<char>>, k: int, end: int, st: RegisterState) -> Result<
    RegisterState,
    RegisterFault,
>
    decreases end - k,
{
    if k >= end {
        Ok(st)
    } else {
        match register_line(ls[k], st) {
            Ok(s2) => run_lines(ls, k + 1, end, s2),
            Err(f) => Err(f),
        }
    }
}

proof fn lemma_run_lines(ls: Seq<Seq<char>>, k: int, end: int, st: RegisterState)
    requires
        0 <= k <= end <= ls.len(),
    ensures
        register_lines(ls, k, st) == match run_lines(ls, k, end, st) {
            Ok(s2) => register_lines(ls, end, s2),
            Err(f) => Err(f),
        },
    decreases end - k,
{
    if k < end {
        if let Ok(s2) = register_line(ls[k], st) {
            lemma_run_lines(ls, k + 1, end, s2);
        }
    }
}

/// The line that opens a divergence.
pub open spec fn divergence_header() -> Seq<char> {
    "[[divergence]]"@
}

/// A `key = value` line whose value ends in a character that is not
/// whitespace.
pub open spec fn key_line(key: Seq<char>, v: Seq<char>) -> Seq<char> {
    key + " = "@ + v
}

/// A line of a divergence that gives it a corpus or a command, or gives it
/// an empty reason; any such lines, and no others, make a divergence that
/// has no reason to it.
pub open spec fn gives_no_reason(l: Seq<char>) -> bool {
    ||| exists|v: Seq<char>|
        v.len() > 0 && !text::is_white(v.last()) && l == #[trigger] key_line("corpus"@, v)
    ||| exists|v: Seq<char>|
        v.len() > 0 && !text::is_white(v.last()) && l == #[trigger] key_line("command"@, v)
    ||| l == "reason = \"\""@
}

proof fn lemma_trim_plain(s: Seq<char>)
    requires
        s.len() > 0,
        !text::is_white(s[0]),
        !text::is_white(s.last()),
    ensures
        text::trim(s) == s,
{
    assert(text::trim_start(s) == s);
}

/// How a `key = value` line with a plain key is read.
proof fn lemma_key_line(key: Seq<char>, v: Seq<char>)
    requires
        key.len() > 0,
        forall|i: int| 0 <= i < key.len() ==> key[i] != '=' && !text::is_white(#[trigger] key[i]),
        key[0] != '#',
        key[0] != '[',
        v.len() > 0,
        !text::is_white(v.last()),
    ensures
        ({
            let l = key_line(key, v);
            &&& text::trim(l) == l
            &&& l.len() > 0
            &&& l[0] != '#'
            &&& l != divergence_header()
            &&& text::find_from(l, '=', 0) == key.len() + 1
            &&& text::trim(l.subrange(0, key.len() + 1int)) == key
        }),
{
    reveal_strlit(" = ");
    reveal_strlit("[[divergence]]");
    let l = key_line(key, v);
    assert(l[0] == key[0]);
    assert(l.last() == v.last());
    lemma_trim_plain(l);
    assert(divergence_header()[0] == '[');
    text::lemma_find_from(l, '=', 0);
    assert(l[key.len() + 1int] == '=');
    assert forall|i: int| 0 <= i < key.len() + 1 implies l[i] != '=' by {
        if i < key.len() {
            assert(l[i] == key[i]);
        }
    }
    let f = text::find_from(l, '=', 0);
    if f < key.len() + 1 {
        assert(l[f] != '=');
    }
    let head = l.subrange(0, key.len() + 1int);
    assert(head =~= key.push(' '));
    assert(head[0] == key[0]);
    assert(text::trim_start(head) == head);
    assert(head.drop_last() =~= key);
    assert(text::trim_end(key) == key);
    assert(text::trim_end(head) == key);
}

/// A line that gives no reason leaves the divergence being read without a
/// reason other than an empty one, keeps what is already excused, and
/// leaves at least one of its fields set.
proof fn lemma_no_reason_line(l: Seq<char>, st: RegisterState)
    requires
        gives_no_reason(l),
    ensures
        register_line(l, st) matches Ok(s2) && s2.excused == st.excused && (s2.corpus is Some
            || s2.command is Some || s2.reason is Some) && (s2.reason == st.reason || s2.reason
            == Some(Seq::<char>::empty())),
{
    reveal_strlit("corpus");
    reveal_strlit("command");
    reveal_strlit("reason");
    reveal_strlit("reason = \"\"");
    reveal_strlit("\"\"");
    reveal_strlit(" = ");
    if exists|v: Seq<char>|
        v.len() > 0 && !text::is_white(v.last()) && l == #[trigger] key_line("corpus"@, v) {
        let v = choose|v: Seq<char>|
            v.len() > 0 && !text::is_white(v.last()) && l == #[trigger] key_line("corpus"@, v);
        lemma_key_line("corpus"@, v);
    } else if exists|v: Seq<char>|
        v.len() > 0 && !text::is_white(v.last()) && l == #[trigger] key_line("command"@, v) {
        let v = choose|v: Seq<char>|
            v.len() > 0 && !text::is_white(v.last()) && l == #[trigger] key_line("command"@, v);
        lemma_key_line("command"@, v);
        assert("command"@ != "corpus"@);
    } else {
        let q: Seq<char> = "\"\""@;
        assert(l =~= key_line("reason"@, q));
        lemma_key_line("reason"@, q);
        assert("reason"@[0] != "corpus"@[0]);
        assert("reason"@ != "command"@);
        let tail = l.subrange(8, l.len() as int);
        assert(tail =~= seq![' ', '"', '"']);
        assert(text::trim_start(tail) == text::trim_start(tail.drop_first()));
        assert(tail.drop_first() =~= q);
        assert(text::trim_start(q) == q);
        assert(text::trim_end(q) == q);
        assert(text::unquote_start(q) == text::unquote_start(q.drop_first()));
        assert(text::unquote_start(q.drop_first()) == text::unquote_start(
            q.drop_first().drop_first(),
        ));
        assert(q.drop_first().drop_first() =~= Seq::<char>::empty());
        assert(text::unquote(q) =~= Seq::<char>::empty());
    }
}

/// Lines that give no reason, read from a state that has no reason but an
/// empty one, then the end of the text or the next divergence, make the
/// register fail.
proof fn lemma_no_reason_run(ls: Seq<Seq<char>>, k: int, end: int, st: RegisterState)
    requires
        0 <= k <= end <= ls.len(),
        forall|i: int| k <= i < end ==> gives_no_reason(#[trigger] ls[i]),
        st.reason is None || st.reason == Some(Seq::<char>::empty()),
        k < end || st.corpus is Some || st.command is Some || st.reason is Some,
        end == ls.len() || text::trim(ls[end]) == divergence_header(),
    ensures
        register_lines(ls, k, st) is Err,
    decreases end - k,
{
    if k < end {
        lemma_no_reason_line(ls[k], st);
        let s2 = register_line(ls[k], st)->Ok_0;
        lemma_no_reason_run(ls, k + 1, end, s2);
    } else if end < ls.len() {
        reveal_strlit("[[divergence]]");
        let line = text::trim(ls[end]);
        assert(line == "[[divergence]]"@);
        assert(line.len() > 0 && line[0] == '[');
        assert(register_line(ls[end], st) == close_divergence(st));
        assert(close_divergence(st) is Err);
    } else {
        assert(close_divergence(st) is Err);
    }
}

/// A divergence with no reason does not load, wherever it stands in the
/// register: if the register's lines hold a `[[divergence]]` line followed
/// by lines that give it only a corpus, a command or an empty reason (at
/// least one of them), up to the end of the text or up to the next
/// `[[divergence]]`, the register is refused, whatever stands before it or
/// after it.
pub proof fn lemma_reasonless_divergence_refused(
    t: Seq<char>,
    pre: Seq<Seq<char>>,
    body: Seq<Seq<char>>,
    post: Seq<Seq<char>>,
)
    requires
        text::lines(t) == pre + seq![divergence_header()] + body + post,
        body.len() > 0,
        forall|i: int| 0 <= i < body.len() ==> gives_no_reason(#[trigger] body[i]),
        post.len() == 0 || text::trim(post[0]) == divergence_header(),
    ensures
        register_of(t) is Err,
{
    reveal_strlit("[[divergence]]");
    let ls = text::lines(t);
    let m = pre.len() as int;
    let end = m + 1 + body.len();
    lemma_run_lines(ls, 0, m, fresh_state(Seq::empty()));
    assert(ls[m] == divergence_header());
    assert forall|i: int| m + 1 <= i < end implies gives_no_reason(#[trigger] ls[i]) by {
        assert(ls[i] == body[i - m - 1]);
    }
    if end < ls.len() {
        assert(ls[end] == post[0]);
    }
    let hd = divergence_header();
    lemma_trim_plain(hd);
    if let Ok(s1) = run_lines(ls, 0, m, fresh_state(Seq::empty())) {
        if let Ok(s2) = register_line(ls[m], s1) {
            assert(s2.corpus is None && s2.command is None && s2.reason is None);
            lemma_no_reason_run(ls, m + 1, end, s2);
        }
    }
}

/// The lines of one complete divergence: corpus `c`, command `m` and
/// reason `r`, each written in double quotes.
pub open spec fn divergence_lines(c: Seq<char>, m: Seq<char>, r: Seq<char>) -> Seq<Seq<char>> {
    seq![
        divergence_header(),
        key_line("corpus"@, seq!['"'] + c + seq!['"']),
        key_line("command"@, seq!['"'] + m + seq!['"']),
        key_line("reason"@, seq!['"'] + r + seq!['"']),
    ]
}

/// A value that does not start or end with a double quote of its own.
pub open spec fn plain_value(v: Seq<char>) -> bool {
    v.len() == 0 || (v[0] != '"' && v.last() != '"')
}

proof fn lemma_quoted_value(v: Seq<char>)
    requires
        plain_value(v),
    ensures
        text::unquote(text::trim(seq![' ', '"'] + v + seq!['"'])) == v,
{
    let s = seq![' ', '"'] + v + seq!['"'];
    let q = seq!['"'] + v + seq!['"'];
    assert(s.drop_first() =~= q);
    assert(text::trim_start(s) == text::trim_start(q));
    assert(text::trim_start(q) == q);
    assert(q.last() == '"');
    assert(text::trim_end(q) == q);
    assert(text::unquote_start(q) == text::unquote_start(q.drop_first()));
    let q1 = v + seq!['"'];
    assert(q.drop_first() =~= q1);
    if v.len() > 0 {
        assert(q1[0] == v[0]);
        assert(text::unquote_start(q1) == q1);
        assert(q1.drop_last() =~= v);
        assert(text::unquote_end(q1) == text::unquote_end(v));
        assert(text::unquote_end(v) == v);
    } else {
        assert(q1 =~= seq!['"']);
        assert(text::unquote_start(q1) == text::unquote_start(q1.drop_first()));
        assert(q1.drop_first() =~= Seq::<char>::empty());
        assert(text::unquote(q) =~= v);
    }
}

/// How a `key = "value"` line of a register is read.
proof fn lemma_quoted_key_line(key: Seq<char>, v: Seq<char>, st: RegisterState)
    requires
        key == "corpus"@ || key == "command"@ || key == "reason"@,
        plain_value(v),
    ensures
        register_line(key_line(key, seq!['"'] + v + seq!['"']), st) == Ok::<_, RegisterFault>(
            if key == "corpus"@ {
                RegisterState { corpus: Some(v), ..st }
            } else if key == "command"@ {
                RegisterState { command: Some(v), ..st }
            } else {
                RegisterState { reason: Some(v), ..st }
            },
        ),
{
    reveal_strlit("corpus");
    reveal_strlit("command");
    reveal_strlit("reason");
    reveal_strlit(" = ");
    let w = seq!['"'] + v + seq!['"'];
    assert(w.last() == '"');
    lemma_key_line(key, w);
    let l = key_line(key, w);
    let e: int = key.len() + 1int;
    assert(l.subrange(e + 1, l.len() as int) =~= seq![' ', '"'] + v + seq!['"']);
    lemma_quoted_value(v);
    assert("reason"@[0] != "corpus"@[0]);
    assert("reason"@ != "command"@);
    assert("command"@ != "corpus"@);
}

/// Adding one complete divergence to a register that loads adds exactly its
/// corpus and command, unquoted, after what the register already excused,
/// as long as its reason is not empty.
pub proof fn lemma_complete_divergence_added(
    t1: Seq<char>,
    t2: Seq<char>,
    c: Seq<char>,
    m: Seq<char>,
    r: Seq<char>,
)
    requires
        register_of(t1) is Ok,
        text::lines(t2) == text::lines(t1) + divergence_lines(c, m, r),
        plain_value(c),
        plain_value(m),
        plain_value(r),
        r.len() > 0,
    ensures
        register_of(t2) == Ok::<_, RegisterFault>(register_of(t1)->Ok_0.push((c, m))),
{
    reveal_strlit("[[divergence]]");
    reveal_strlit("corpus");
    reveal_strlit("command");
    reveal_strlit("reason");
    let pre = text::lines(t1);
    let ls = text::lines(t2);
    let n = pre.len() as int;
    let f = fresh_state(Seq::empty());
    let ex = register_of(t1)->Ok_0;
    lemma_run_lines(pre, 0, n, f);
    lemma_run_lines(ls, 0, n, f);
    assert(run_lines(ls, 0, n, f) == run_lines(pre, 0, n, f)) by {
        lemma_run_lines_prefix(pre, ls, 0, n, f);
    }
    let s = run_lines(pre, 0, n, f)->Ok_0;
    assert(close_divergence(s) == Ok::<_, RegisterFault>(fresh_state(ex)) || (close_divergence(s)
        == Ok::<_, RegisterFault>(s) && s == fresh_state(ex)));
    let d = divergence_lines(c, m, r);
    assert(ls[n] == divergence_header());
    assert(ls[n + 1] == d[1]);
    assert(ls[n + 2] == d[2]);
    assert(ls[n + 3] == d[3]);
    let hd = divergence_header();
    lemma_trim_plain(hd);
    assert(hd[0] == '[');
    assert(register_line(ls[n], s) == Ok::<_, RegisterFault>(fresh_state(ex)));
    let s1 = fresh_state(ex);
    lemma_quoted_key_line("corpus"@, c, s1);
    let s2 = RegisterState { corpus: Some(c), ..s1 };
    lemma_quoted_key_line("command"@, m, s2);
    let s3 = RegisterState { command: Some(m), ..s2 };
    lemma_quoted_key_line("reason"@, r, s3);
    let s4 = RegisterState { reason: Some(r), ..s3 };
    assert(register_lines(ls, n + 4, s4) == Ok::<_, RegisterFault>(ex.push((c, m))));
    assert(register_lines(ls, n + 3, s3) == register_lines(ls, n + 4, s4));
    assert(register_lines(ls, n + 2, s2) == register_lines(ls, n + 3, s3));
    assert(register_lines(ls, n + 1, s1) == register_lines(ls, n + 2, s2));
    assert(register_lines(ls, n, s) == register_lines(ls, n + 1, s1));
}

proof fn lemma_run_lines_prefix(
    pre: Seq<Seq<char>>,
    ls: Seq<Seq<char>>,
    k: int,
    end: int,
    st: RegisterState,
)
    requires
        0 <= k <= end,
        end <= pre.len(),
        pre.len() <= ls.len(),
        forall|i: int| 0 <= i < pre.len() ==> ls[i] == pre[i],
    ensures
        run_lines(ls, k, end, st) == run_lines(pre, k, end, st),
    decreases end - k,
{
    if k < end {
        assert(ls[k] == pre[k]);
        if let Ok(s2) = register_line(pre[k], st) {
            lemma_run_lines_prefix(pre, ls, k + 1, end, s2);
        }
    }
}

/// Whether a (corpus, command prefix) list excuses `command` in `corpus`:
/// some entry of that corpus is a prefix of the command, both taken in
/// ASCII lower case.
pub open spec fn excused_by(
    excused: Seq<(Seq<char>, Seq<char>)>,
    corpus: Seq<char>,
    command: Seq<char>,
) -> bool {
    exists|i: int|
        0 <= i < excused.len() && (#[trigger] excused[i]).0 == corpus && text::is_prefix(
            text::lower_seq(excused[i].1),
            text::lower_seq(command),
        )
}

/// The divergences decided to be lived with.
///
/// A divergence in here is a claim with a reason attached, not a test being
/// switched off. Everything else that differs fails the run.
///
/// The divergences are kept as (corpus file, command prefix) pairs in the
/// order the register lists them. A command of a file is excused when any
/// pair names that file and, in ASCII lower case, a prefix of the command
/// (see `excused_by`), so the pairs of one file need no grouping and their
/// order does not change what is excused.
pub struct Register {
    /// Corpus file name and command prefix, one pair per divergence.
    excused: Vec<(String, String)>,
}

pub open spec fn pair_views(v: Seq<(String, String)>) -> Seq<(Seq<char>, Seq<char>)> {
    v.map_values(|p: (String, String)| (p.0@, p.1@))
}

impl View for Register {
    type V = Seq<(Seq<char>, Seq<char>)>;

    closed spec fn view(&self) -> Seq<(Seq<char>, Seq<char>)> {
        pair_views(self.excused@)
    }
}

impl Default for Register {
    fn default() -> (r: Register)
        ensures
            r@ == Seq::<(Seq<char>, Seq<char>)>::empty(),
    {
        let r = Register { excused: Vec::new() };
        assert(pair_views(r.excused@) =~= Seq::<(Seq<char>, Seq<char>)>::empty());
        r
    }
}

/// `close_divergence` on the fields being read.
fn close_fields(
    out: &mut Vec<(String, String)>,
    corpus: &mut Option<String>,
    command: &mut Option<String>,
    reason: &mut Option<String>,
) -> (r: Result<(), String>)
    ensures
        ({
            let st = RegisterState {
                excused: pair_views(old(out)@),
                corpus: text::opt_view(*old(corpus)),
                command: text::opt_view(*old(command)),
                reason: text::opt_view(*old(reason)),
            };
            &&& r is Ok <==> close_divergence(st) is Ok
            &&& r matches Ok(_) ==> close_divergence(st) == Ok::<_, RegisterFault>(
                RegisterState {
                    excused: pair_views(final(out)@),
                    corpus: text::opt_view(*final(corpus)),
                    command: text::opt_view(*final(command)),
                    reason: text::opt_view(*final(reason)),
                },
            )
            &&& r matches Err(e) ==> (close_divergence(st) matches Err(f) && e@ == f.message())
        }),
{
    let c = corpus.take();
    let m = command.take();
    let n = reason.take();
    match (c, m, n) {
        (None, None, None) => Ok(()),
        (Some(c), Some(m), Some(n)) => {
            if n.as_str().is_empty() {
                Err(String::from_str("every divergence needs a corpus, a command and a reason"))
            } else {
                let ghost before = pair_views(out@);
                out.push((c, m));
                assert(pair_views(out@) =~= before.push((c@, m@)));
                Ok(())
            }
        },
        _ => Err(String::from_str("every divergence needs a corpus, a command and a reason")),
    }
}

impl Register {
    /// A small hand written reader for a small hand written file. It wants
    /// `[[divergence]]` tables with a `corpus`, a `command` and a `reason`,
    /// and it insists on the reason, because a divergence with no reason on
    /// it is the thing the file exists to prevent.
    pub fn parse(t: &str) -> (r: Result<Register, String>)
        ensures
            r is Ok <==> register_of(t@) is Ok,
            r matches Ok(g) ==> register_of(t@) == Ok::<_, RegisterFault>(g@),
            r matches Err(e) ==> (register_of(t@) matches Err(f) && e@ == f.message()),
    {
        let v = text::chars_of(t);
        let ghost ls = text::lines(v@);
        let mut out: Vec<(String, String)> = Vec::new();
        let mut corpus: Option<String> = None;
        let mut command: Option<String> = None;
        let mut reason: Option<String> = None;
        let mut i: usize = 0;
        let mut k: usize = 0;
        assert(ls.skip(0) == ls);
        assert(pair_views(out@) =~= Seq::<(Seq<char>, Seq<char>)>::empty());
        while i < v.len()
            invariant
                v@ == t@,
                ls == text::lines(v@),
                k <= i <= v@.len(),
                k <= ls.len(),
                ls.skip(k as int) == text::lines_from(v@, i as int),
                register_of(v@) == register_lines(
                    ls,
                    k as int,
                    RegisterState {
                        excused: pair_views(out@),
                        corpus: text::opt_view(corpus),
                        command: text::opt_view(command),
                        reason: text::opt_view(reason),
                    },
                ),
            decreases v.len() - i,
        {
            let (end, next) = text::line_bounds(&v, i);
            let ghost line = text::line_at(v@, i as int);
            assert(ls.skip(k as int).len() > 0);
            assert(ls[k as int] == line) by {
                assert(ls.skip(k as int)[0] == ls[k as int]);
            }
            assert(ls.skip(k + 1) =~= text::lines_from(v@, next as int)) by {
                assert(ls.skip(k + 1) =~= ls.skip(k as int).drop_first());
            }
            let (a, b) = text::trim_range(&v, i, end);
            let ghost tl = text::trim(line);
            assert(v@.subrange(a as int, b as int) == tl);
            if a == b {
            } else if v[a] == '#' {
                assert(tl[0] == v@[a as int]);
            } else if text::range_eq(&v, a, b, "[[divergence]]") {
                assert(tl[0] == v@[a as int]);
                match close_fields(&mut out, &mut corpus, &mut command, &mut reason) {
                    Ok(()) => {},
                    Err(e) => {
                        return Err(e);
                    },
                }
            } else {
                assert(tl[0] == v@[a as int]);
                let e = text::find_in(&v, a, b, '=');
                if e == b {
                    let mut m = String::from_str("not a key and a value: ");
                    text::push_range(&mut m, &v, a, b);
                    return Err(m);
                }
                proof {
                    text::lemma_find_from(tl, '=', 0);
                    assert(tl.subrange(0, e - a) == v@.subrange(a as int, e as int));
                    assert(tl.subrange(e - a + 1, tl.len() as int) == v@.subrange(
                        e + 1,
                        b as int,
                    ));
                }
                let (ka, kb) = text::trim_range(&v, a, e);
                let (ta, tb) = text::trim_range(&v, e + 1, b);
                let (va, vb) = text::unquote_range(&v, ta, tb);
                let value = text::string_of_range(&v, va, vb);
                if text::range_eq(&v, ka, kb, "corpus") {
                    corpus = Some(value);
                } else if text::range_eq(&v, ka, kb, "command") {
                    command = Some(value);
                } else if text::range_eq(&v, ka, kb, "reason") {
                    reason = Some(value);
                } else {
                    let mut m = String::from_str("no such field: ");
                    text::push_range(&mut m, &v, ka, kb);
                    return Err(m);
                }
            }
            i = next;
            k = k + 1;
        }
        assert(ls.skip(k as int).len() == 0);
        match close_fields(&mut out, &mut corpus, &mut command, &mut reason) {
            Ok(()) => Ok(Register { excused: out }),
            Err(e) => Err(e),
        }
    }

    /// Whether this mismatch is one already signed for.
    ///
    /// Matched on a prefix so an entry can cover a command rather than one
    /// exact set of arguments: `SETRANGE` excuses every SETRANGE in that file,
    /// `SETRANGE key 5` excuses only the ones that start that way.
    pub fn excuses(&self, corpus: &str, command: &str) -> (r: bool)
        ensures
            r == excused_by(self@, corpus@, command@),
    {
        let lower = text::lowercase_chars(command);
        let mut i: usize = 0;
        while i < self.excused.len()
            invariant
                i <= self.excused@.len(),
                lower@ == text::lower_seq(command@),
                forall|j: int|
                    0 <= j < i ==> !(#[trigger] pair_views(self.excused@)[j].0 == corpus@
                        && text::is_prefix(
                        text::lower_seq(pair_views(self.excused@)[j].1),
                        text::lower_seq(command@),
                    )),
            decreases self.excused.len() - i,
        {
            let entry = &self.excused[i];
            let name = text::chars_of(entry.0.as_str());
            if text::range_eq(&name, 0, name.len(), corpus) {
                let prefix = text::lowercase_chars(entry.1.as_str());
                if text::starts_with(&lower, &prefix) {
                    assert(name@.subrange(0, name@.len() as int) == name@);
                    assert(pair_views(self.excused@)[i as int] == (entry.0@, entry.1@));
                    return true;
                }
            }
            assert(name@.subrange(0, name@.len() as int) == name@);
            assert(pair_views(self.excused@)[i as int] == (entry.0@, entry.1@));
            i = i + 1;
        }
        false
    }
}

/// An entry matches a command when the command starts with it, letter by
/// letter, ASCII case aside.
pub open spec fn starts_command(entry: Seq<char>, command: Seq<char>) -> bool {
    &&& entry.len() <= command.len()
    &&& forall|k: int| 0 <= k < entry.len() ==> text::lower(#[trigger] entry[k]) == text::lower(command[k])
}

/// The register excuses a command of a corpus file exactly when one of its
/// entries for that file is the start of the command, letter by letter and
/// ASCII case aside: an entry is never matched further on in the command,
/// nor for another file.
pub proof fn lemma_excused_means_prefix(
    excused: Seq<(Seq<char>, Seq<char>)>,
    corpus: Seq<char>,
    command: Seq<char>,
)
    ensures
        excused_by(excused, corpus, command) <==> exists|i: int|
            0 <= i < excused.len() && (#[trigger] excused[i]).0 == corpus && starts_command(
                excused[i].1,
                command,
            ),
{
    let lc = text::lower_seq(command);
    if excused_by(excused, corpus, command) {
        let i = choose|i: int|
            0 <= i < excused.len() && (#[trigger] excused[i]).0 == corpus && text::is_prefix(
                text::lower_seq(excused[i].1),
                text::lower_seq(command),
            );
        let e = excused[i].1;
        let le = text::lower_seq(e);
        assert forall|k: int| 0 <= k < e.len() implies text::lower(#[trigger] e[k]) == text::lower(
            command[k],
        ) by {
            assert(le[k] == lc.subrange(0, le.len() as int)[k]);
        }
        assert(starts_command(e, command));
    }
    if exists|i: int|
        0 <= i < excused.len() && (#[trigger] excused[i]).0 == corpus && starts_command(
            excused[i].1,
            command,
        ) {
        let i = choose|i: int|
            0 <= i < excused.len() && (#[trigger] excused[i]).0 == corpus && starts_command(
                excused[i].1,
                command,
            );
        let e = excused[i].1;
        let le = text::lower_seq(e);
        assert(lc.subrange(0, le.len() as int) =~= le);
        assert(text::is_prefix(text::lower_seq(excused[i].1), text::lower_seq(command)));
    }
}

/// An entry covers a command rather than one exact set of arguments: what
/// the register excuses, it still excuses with more arguments after it.
pub proof fn lemma_excuses_longer_commands(
    excused: Seq<(Seq<char>, Seq<char>)>,
    corpus: Seq<char>,
    command: Seq<char>,
    more: Seq<char>,
)
    requires
        excused_by(excused, corpus, command),
    ensures
        excused_by(excused, corpus, command + more),
{
    let i = choose|i: int|
        0 <= i < excused.len() && (#[trigger] excused[i]).0 == corpus && text::is_prefix(
            text::lower_seq(excused[i].1),
            text::lower_seq(command),
        );
    let p = text::lower_seq(excused[i].1);
    let lc = text::lower_seq(command);
    let lcm = text::lower_seq(command + more);
    assert(lcm =~= lc + text::lower_seq(more));
    assert(lcm.subrange(0, p.len() as int) =~= lc.subrange(0, p.len() as int));
    assert(text::is_prefix(p, lcm));
}

/// The register matches commands without regard to ASCII case.
pub proof fn lemma_excuses_ignore_case(
    excused: Seq<(Seq<char>, Seq<char>)>,
    corpus: Seq<char>,
    command: Seq<char>,
)
    ensures
        excused_by(excused, corpus, command) == excused_by(
            excused,
            corpus,
            text::lower_seq(command),
        ),
{
    assert(text::lower_seq(text::lower_seq(command)) =~= text::lower_seq(command));
}

/// A register excuses nothing in a corpus file that none of its entries
/// names.
pub proof fn lemma_excuses_only_named_files(
    excused: Seq<(Seq<char>, Seq<char>)>,
    corpus: Seq<char>,
    command: Seq<char>,
)
    requires
        forall|i: int| 0 <= i < excused.len() ==> (#[trigger] excused[i]).0 != corpus,
    ensures
        !excused_by(excused, corpus, command),
{
}

/// A corpus file: its extension is `txt`, that is, its name ends in `.txt`
/// and there is something before the dot.
pub open spec fn is_corpus_file(name: Seq<u8>) -> bool {
    name.len() > 4 && name.subrange(name.len() - 4, name.len() as int) == seq![46u8, 116, 120, 116]
}

/// Names in byte order.
pub open spec fn names_sorted(s: Seq<Seq<u8>>) -> bool {
    forall|i: int, j: int| 0 <= i < j < s.len() ==> text::lex_le(#[trigger] s[i], #[trigger] s[j])
}

/// The bytes of each name.
pub open spec fn byte_views(v: Seq<Vec<u8>>) -> Seq<Seq<u8>> {
    v.map_values(|n: Vec<u8>| n@)
}

/// The corpus files among the names of a directory's entries, given as
/// their bytes, in the order paths in one directory sort in.
pub fn corpus_files(names: &Vec<Vec<u8>>) -> (r: Vec<Vec<u8>>)
    ensures
        names_sorted(byte_views(r@)),
        byte_views(r@).to_multiset() == byte_views(names@).filter(
            |n: Seq<u8>| is_corpus_file(n),
        ).to_multiset(),
{
    broadcast use vstd::seq_lib::group_to_multiset_ensures;

    let ghost all = byte_views(names@);
    let ghost pred = |n: Seq<u8>| is_corpus_file(n);
    let mut r: Vec<Vec<u8>> = Vec::new();
    assert(byte_views(r@) =~= Seq::<Seq<u8>>::empty());
    assert(all.take(0) =~= Seq::<Seq<u8>>::empty());
    assert(all.take(0).filter(pred) =~= Seq::<Seq<u8>>::empty()) by {
        reveal(Seq::filter);
    }
    for i in 0..names.len()
        invariant
            all == byte_views(names@),
            pred == (|n: Seq<u8>| is_corpus_file(n)),
            names_sorted(byte_views(r@)),
            byte_views(r@).to_multiset() == all.take(i as int).filter(pred).to_multiset(),
    {
        let name = &names[i];
        let ghost x = name@;
        assert(all.take(i + 1) =~= all.take(i as int).push(x));
        proof {
            all.take(i as int).lemma_filter_push(x, pred);
        }
        let n = name.len();
        let keep = n > 4 && name[n - 4] == 46 && name[n - 3] == 116 && name[n - 2] == 120
            && name[n - 1] == 116;
        proof {
            if n > 4 {
                let tail = x.subrange(n - 4, n as int);
                assert(tail[0] == x[n - 4] && tail[1] == x[n - 3] && tail[2] == x[n - 2]
                    && tail[3] == x[n - 1]);
                if keep {
                    assert(tail =~= seq![46u8, 116, 120, 116]);
                }
            }
            assert(keep == pred(x));
        }
        if keep {
            let ghost rv = byte_views(r@);
            let mut k: usize = 0;
            while k < r.len() && text::lex_le_bytes(r[k].as_slice(), name.as_slice())
                invariant
                    k <= r@.len(),
                    rv == byte_views(r@),
                    x == name@,
                    forall|m: int| 0 <= m < k ==> text::lex_le(#[trigger] rv[m], x),
                decreases r.len() - k,
            {
                assert(rv[k as int] == r@[k as int]@);
                k = k + 1;
            }
            proof {
                if k < r.len() {
                    text::lemma_lex_total(rv[k as int], x);
                }
                assert forall|m: int| k <= m < rv.len() implies text::lex_le(x, #[trigger] rv[m]) by {
                    if m > k {
                        text::lemma_lex_trans(x, rv[k as int], rv[m]);
                    }
                }
            }
            let copy = name.clone();
            assert(copy@ =~= x);
            r.insert(k, copy);
            proof {
                let nv = byte_views(r@);
                assert(nv =~= rv.subrange(0, k as int).push(x) + rv.subrange(k as int, rv.len() as int));
                assert(rv =~= rv.subrange(0, k as int) + rv.subrange(k as int, rv.len() as int));
                let a0 = rv.subrange(0, k as int);
                let b0 = rv.subrange(k as int, rv.len() as int);
                vstd::seq_lib::lemma_multiset_commutative(a0.push(x), b0);
                vstd::seq_lib::lemma_multiset_commutative(a0, b0);
                vstd::seq_lib::to_multiset_build(a0, x);
                broadcast use vstd::multiset::group_multiset_axioms;
                assert(nv.to_multiset() =~= rv.to_multiset().insert(x));
                vstd::seq_lib::to_multiset_build(all.take(i as int).filter(pred), x);
                assert forall|a: int, b: int| 0 <= a < b < nv.len() implies text::lex_le(
                    #[trigger] nv[a],
                    #[trigger] nv[b],
                ) by {
                    if b < k {
                        assert(nv[a] == rv[a] && nv[b] == rv[b]);
                    } else if b == k {
                        assert(nv[a] == rv[a]);
                    } else if a < k {
                        assert(nv[a] == rv[a] && nv[b] == rv[b - 1]);
                        text::lemma_lex_trans(rv[a], x, rv[b - 1]);
                    } else if a == k {
                        assert(nv[b] == rv[b - 1]);
                    } else {
                        assert(nv[a] == rv[a - 1] && nv[b] == rv[b - 1]);
                    }
                }
            }
        }
    }
    assert(all.take(names@.len() as int) =~= all);
    r
}

/// A plain word: not empty, no whitespace, no double quote.
pub open spec fn plain_word(w: Seq<char>) -> bool {
    w.len() > 0 && forall|j: int| 0 <= j < w.len() ==> !text::is_white(#[trigger] w[j]) && w[j] != '"'
}

proof fn lemma_split_word(
    s: Seq<char>,
    i: int,
    k: int,
    args: Seq<Seq<char>>,
    cur: Seq<char>,
    started: bool,
)
    requires
        0 <= i,
        0 <= k,
        i + k <= s.len(),
        forall|m: int| i <= m < i + k ==> !text::is_white(#[trigger] s[m]) && s[m] != '"',
    ensures
        split_from(s, i, args, cur, false, started) == split_from(
            s,
            i + k,
            args,
            cur + s.subrange(i, i + k),
            false,
            started || k > 0,
        ),
    decreases k,
{
    if k == 0 {
        assert(cur + s.subrange(i, i) =~= cur);
    } else {
        assert(!text::is_white(s[i]) && s[i] != '"');
        lemma_split_word(s, i + 1, k - 1, args, cur.push(s[i]), true);
        assert(cur.push(s[i]) + s.subrange(i + 1, i + k) =~= cur + s.subrange(i, i + k));
    }
}

proof fn lemma_spaced_front(ws: Seq<Seq<char>>)
    requires
        ws.len() >= 2,
    ensures
        crate::report::spaced(ws) == ws[0] + seq![' '] + crate::report::spaced(ws.drop_first()),
    decreases ws.len(),
{
    if ws.len() == 2 {
        assert(ws.drop_last() =~= seq![ws[0]]);
        assert(ws.drop_first() =~= seq![ws[1]]);
        assert(crate::report::spaced(seq![ws[0]]) == ws[0]);
        assert(crate::report::spaced(seq![ws[1]]) == ws[1]);
        assert(ws.last() == ws[1]);
    } else {
        lemma_spaced_front(ws.drop_last());
        let dl = ws.drop_last();
        let df = ws.drop_first();
        assert(dl.drop_first() =~= df.drop_last());
        assert(df.last() == ws.last());
        assert(dl[0] == ws[0]);
        assert(crate::report::spaced(df) == crate::report::spaced(df.drop_last()) + seq![' '] + df.last());
        assert(crate::report::spaced(ws) == crate::report::spaced(dl) + seq![' '] + ws.last());
        assert(crate::report::spaced(ws) =~= ws[0] + seq![' '] + crate::report::spaced(df));
    }
}

proof fn lemma_split_words_from(s: Seq<char>, i: int, ws: Seq<Seq<char>>, args: Seq<Seq<char>>)
    requires
        0 <= i <= s.len(),
        ws.len() > 0,
        forall|n: int| 0 <= n < ws.len() ==> plain_word(#[trigger] ws[n]),
        s.subrange(i, s.len() as int) == crate::report::spaced(ws),
    ensures
        split_from(s, i, args, Seq::empty(), false, false) == Ok::<_, SplitFault>(args + ws),
    decreases ws.len(),
{
    let w = ws[0];
    assert(plain_word(w));
    let k = w.len() as int;
    if ws.len() == 1 {
        assert(crate::report::spaced(ws) == w);
    } else {
        lemma_spaced_front(ws);
    }
    let t = s.subrange(i, s.len() as int);
    assert(t.len() >= k);
    assert(t.subrange(0, k) =~= w);
    assert(s.subrange(i, i + k) =~= w) by {
        assert(t.subrange(0, k) =~= s.subrange(i, i + k));
    }
    assert forall|m: int| i <= m < i + k implies !text::is_white(#[trigger] s[m]) && s[m] != '"' by {
        assert(s[m] == s.subrange(i, i + k)[m - i]);
        assert(s[m] == w[m - i]);
    }
    lemma_split_word(s, i, k, args, Seq::empty(), false);
    assert(Seq::<char>::empty() + s.subrange(i, i + k) =~= w);
    if ws.len() == 1 {
        assert(i + k == s.len());
        assert(args.push(w) =~= args + ws);
    } else {
        let rest = ws.drop_first();
        assert(s[i + k] == ' ') by {
            assert(s.subrange(i, s.len() as int)[k] == s[i + k]);
        }
        assert(s.subrange(i + k + 1, s.len() as int) =~= crate::report::spaced(rest)) by {
            assert(s.subrange(i, s.len() as int).subrange(k + 1, s.len() - i) =~= s.subrange(
                i + k + 1,
                s.len() as int,
            ));
        }
        assert forall|n: int| 0 <= n < rest.len() implies plain_word(#[trigger] rest[n]) by {
            assert(rest[n] == ws[n + 1]);
        }
        lemma_split_words_from(s, i + k + 1, rest, args.push(w));
        assert(args.push(w) + rest =~= args + ws);
    }
}

/// Plain words joined by single spaces split back into those words: what
/// needs no quoting comes through unquoted.
pub proof fn lemma_split_plain_words(ws: Seq<Seq<char>>)
    requires
        forall|n: int| 0 <= n < ws.len() ==> plain_word(#[trigger] ws[n]),
    ensures
        split_args(crate::report::spaced(ws)) == Ok::<_, SplitFault>(ws),
{
    let s = crate::report::spaced(ws);
    if ws.len() == 0 {
        assert(s.len() == 0);
        assert(ws =~= Seq::<Seq<char>>::empty());
        assert(split_args(s) == Ok::<_, SplitFault>(Seq::<Seq<char>>::empty()));
    } else {
        assert(s.subrange(0, s.len() as int) =~= s);
        lemma_split_words_from(s, 0, ws, Seq::empty());
        assert(Seq::<Seq<char>>::empty() + ws =~= ws);
    }
}

/// A whitespace character at the front of what is left changes nothing of
/// the words.
proof fn lemma_words_skip_white(s: Seq<char>, i: int)
    requires
        0 <= i < s.len(),
        text::is_white(s[i]),
    ensures
        text::words(s.subrange(i, s.len() as int)) == text::words(s.subrange(i + 1, s.len() as int)),
{
    let sub = s.subrange(i, s.len() as int);
    assert(sub.drop_first() =~= s.subrange(i + 1, s.len() as int));
    assert(text::trim_start(sub) == text::trim_start(sub.drop_first()));
}

proof fn lemma_split_unquoted_from(s: Seq<char>, i: int, args: Seq<Seq<char>>)
    requires
        0 <= i <= s.len(),
        forall|m: int| i <= m < s.len() ==> #[trigger] s[m] != '"',
    ensures
        split_from(s, i, args, Seq::empty(), false, false) == Ok::<_, SplitFault>(
            args + text::words(s.subrange(i, s.len() as int)),
        ),
    decreases s.len() - i,
{
    let sub = s.subrange(i, s.len() as int);
    if i == s.len() {
        assert(sub =~= Seq::<char>::empty());
        assert(text::words(sub) =~= Seq::<Seq<char>>::empty());
        assert(args + Seq::<Seq<char>>::empty() =~= args);
    } else if text::is_white(s[i]) {
        lemma_words_skip_white(s, i);
        lemma_split_unquoted_from(s, i + 1, args);
    } else {
        assert(sub[0] == s[i]);
        assert(text::trim_start(sub) == sub);
        text::lemma_leading_word(sub);
        let w = text::leading_word(sub);
        let k = w.len() as int;
        assert(k > 0);
        assert(s.subrange(i, i + k) =~= w);
        assert forall|m: int| i <= m < i + k implies !text::is_white(#[trigger] s[m]) && s[m] != '"' by {
            assert(s[m] == sub[m - i]);
        }
        lemma_split_word(s, i, k, args, Seq::empty(), false);
        assert(Seq::<char>::empty() + s.subrange(i, i + k) =~= w);
        assert(sub.subrange(k, sub.len() as int) =~= s.subrange(i + k, s.len() as int));
        assert(text::words(sub) == seq![w] + text::words(s.subrange(i + k, s.len() as int)));
        if i + k == s.len() {
            assert(text::words(s.subrange(i + k, s.len() as int)) =~= Seq::<Seq<char>>::empty()) by {
                assert(s.subrange(i + k, s.len() as int) =~= Seq::<char>::empty());
            }
            assert(args.push(w) =~= args + (seq![w] + Seq::<Seq<char>>::empty()));
        } else {
            assert(text::is_white(s[i + k])) by {
                assert(sub[k] == s[i + k]);
            }
            lemma_words_skip_white(s, i + k);
            lemma_split_unquoted_from(s, i + k + 1, args.push(w));
            assert(args.push(w) + text::words(s.subrange(i + k + 1, s.len() as int)) =~= args + (
            seq![w] + text::words(s.subrange(i + k + 1, s.len() as int))));
        }
    }
}

/// A line with no double quote splits into its whitespace-separated words,
/// however much whitespace of whatever kind stands between them; a
/// backslash there is an ordinary character, and a blank line has no
/// arguments.
pub proof fn lemma_split_unquoted(s: Seq<char>)
    requires
        forall|m: int| 0 <= m < s.len() ==> #[trigger] s[m] != '"',
    ensures
        split_args(s) == Ok::<_, SplitFault>(text::words(s)),
{
    lemma_split_unquoted_from(s, 0, Seq::empty());
    assert(s.subrange(0, s.len() as int) =~= s);
    assert(Seq::<Seq<char>>::empty() + text::words(s) =~= text::words(s));
}

/// An argument written for a corpus line inside quotes: each backslash and
/// each double quote gets a backslash before it.
pub open spec fn escape(a: Seq<char>) -> Seq<char>
    decreases a.len(),
{
    if a.len() == 0 {
        Seq::empty()
    } else {
        (if a[0] == '\\' || a[0] == '"' {
            seq!['\\', a[0]]
        } else {
            seq![a[0]]
        }) + escape(a.drop_first())
    }
}

/// An argument in double quotes, escaped.
pub open spec fn quote(a: Seq<char>) -> Seq<char> {
    seq!['"'] + escape(a) + seq!['"']
}

/// A corpus line that writes each argument quoted, separated by spaces.
pub open spec fn quoted_line(args: Seq<Seq<char>>) -> Seq<char> {
    crate::report::spaced(args.map_values(|a: Seq<char>| quote(a)))
}

proof fn lemma_split_escaped(
    s: Seq<char>,
    i: int,
    a: Seq<char>,
    args: Seq<Seq<char>>,
    cur: Seq<char>,
)
    requires
        0 <= i,
        i + escape(a).len() <= s.len(),
        s.subrange(i, i + escape(a).len()) == escape(a),
    ensures
        split_from(s, i, args, cur, true, true) == split_from(
            s,
            i + escape(a).len(),
            args,
            cur + a,
            true,
            true,
        ),
    decreases a.len(),
{
    if a.len() == 0 {
        assert(cur + a =~= cur);
    } else {
        let c = a[0];
        let rest = a.drop_first();
        let h = if c == '\\' || c == '"' {
            seq!['\\', c]
        } else {
            seq![c]
        };
        assert(escape(a) == h + escape(rest));
        let e = escape(a);
        assert(s[i] == e[0]);
        if c == '\\' || c == '"' {
            assert(s[i + 1] == e[1]);
            assert(s.subrange(i + 2, i + 2 + escape(rest).len()) =~= e.subrange(2, e.len() as int));
            assert(e.subrange(2, e.len() as int) =~= escape(rest));
            lemma_split_escaped(s, i + 2, rest, args, cur.push(c));
        } else {
            assert(s.subrange(i + 1, i + 1 + escape(rest).len()) =~= e.subrange(1, e.len() as int));
            assert(e.subrange(1, e.len() as int) =~= escape(rest));
            lemma_split_escaped(s, i + 1, rest, args, cur.push(c));
        }
        assert(cur.push(c) + rest =~= cur + a);
    }
}

proof fn lemma_split_quoted(s: Seq<char>, i: int, a: Seq<char>, args: Seq<Seq<char>>)
    requires
        0 <= i,
        i + quote(a).len() <= s.len(),
        s.subrange(i, i + quote(a).len()) == quote(a),
    ensures
        split_from(s, i, args, Seq::empty(), false, false) == split_from(
            s,
            i + quote(a).len(),
            args,
            a,
            false,
            true,
        ),
{
    let q = quote(a);
    let e = escape(a);
    assert(s[i] == q[0]);
    assert(s.subrange(i + 1, i + 1 + e.len()) =~= q.subrange(1, 1 + e.len() as int));
    assert(q.subrange(1, 1 + e.len() as int) =~= e);
    lemma_split_escaped(s, i + 1, a, args, Seq::empty());
    assert(Seq::<char>::empty() + a =~= a);
    assert(s[i + 1 + e.len()] == q[1 + e.len() as int]);
}

proof fn lemma_split_quoted_from(s: Seq<char>, i: int, args: Seq<Seq<char>>, acc: Seq<Seq<char>>)
    requires
        0 <= i <= s.len(),
        args.len() > 0,
        s.subrange(i, s.len() as int) == quoted_line(args),
    ensures
        split_from(s, i, acc, Seq::empty(), false, false) == Ok::<_, SplitFault>(acc + args),
    decreases args.len(),
{
    let qs = args.map_values(|a: Seq<char>| quote(a));
    let a = args[0];
    let q = quote(a);
    assert(qs[0] == q);
    let k = q.len() as int;
    let t = s.subrange(i, s.len() as int);
    if args.len() == 1 {
        assert(crate::report::spaced(qs) == qs[0]);
    } else {
        lemma_spaced_front(qs);
    }
    assert(t.len() >= k);
    assert(t.subrange(0, k) =~= q);
    assert(s.subrange(i, i + k) =~= t.subrange(0, k));
    lemma_split_quoted(s, i, a, acc);
    if args.len() == 1 {
        assert(i + k == s.len());
        assert(acc.push(a) =~= acc + args);
    } else {
        let rest = args.drop_first();
        assert(qs.drop_first() =~= rest.map_values(|a: Seq<char>| quote(a)));
        assert(s[i + k] == ' ') by {
            assert(t[k] == s[i + k]);
        }
        assert(s.subrange(i + k + 1, s.len() as int) =~= quoted_line(rest)) by {
            assert(t.subrange(k + 1, t.len() as int) =~= s.subrange(i + k + 1, s.len() as int));
        }
        lemma_split_quoted_from(s, i + k + 1, rest, acc.push(a));
        assert(acc.push(a) + rest =~= acc + args);
    }
}

/// Any arguments at all, empty ones and ones holding whitespace, quotes or
/// backslashes included, come back from a line that writes each of them in
/// double quotes, escaped, separated by spaces.
pub proof fn lemma_split_quoted_args(args: Seq<Seq<char>>)
    ensures
        split_args(quoted_line(args)) == Ok::<_, SplitFault>(args),
{
    let s = quoted_line(args);
    if args.len() == 0 {
        assert(args.map_values(|a: Seq<char>| quote(a)) =~= Seq::<Seq<char>>::empty());
        assert(s.len() == 0);
        assert(args =~= Seq::<Seq<char>>::empty());
    } else {
        assert(s.subrange(0, s.len() as int) =~= s);
        lemma_split_quoted_from(s, 0, args, Seq::empty());
        assert(Seq::<Seq<char>>::empty() + args =~= args);
    }
}

} // verus!
