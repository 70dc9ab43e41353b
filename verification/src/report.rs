//! Comparing the two servers' replies: what sort of disagreement a mismatch
//! is, which mismatches are already registered, and the order the report
//! lists them in.

use vstd::prelude::*;
use crate::text;
use crate::resp;
use crate::resp::{Reply, ReplyView};
use crate::corpus;
use crate::corpus::{Register, Step};

verus! {

/// A server's answer: its reply, or what went wrong talking to it.
pub open spec fn answer_view(r: Result<Reply, String>) -> Result<ReplyView, Seq<char>> {
    match r {
        Ok(x) => Ok(x@),
        Err(e) => Err(e@),
    }
}

/// What sort of disagreement a pair of answers is.
pub open spec fn kind_of(ours: Result<ReplyView, Seq<char>>, theirs: Result<ReplyView, Seq<char>>) -> Seq<char> {
    match (ours, theirs) {
        (Ok(a), Ok(b)) => match (resp::error_word_view(a), resp::error_word_view(b)) {
            (Some(x), Some(y)) => if x == y {
                "same error, different wording"@
            } else {
                "both refused it, with different errors"@
            },
            (None, Some(_)) => "we accepted what redis refuses"@,
            (Some(_), None) => "we refused what redis accepts"@,
            (None, None) => "different reply"@,
        },
        _ => "one of them did not answer"@,
    }
}

/// Say what sort of disagreement this is.
///
/// Not every mismatch costs the same. Accepting a command Redis refuses is a
/// correctness bug, and a client that relies on the refusal will corrupt
/// data. Refusing it with a differently worded message is a bug too, but a
/// smaller one, and a client that branches on the first word will not even
/// notice.
pub fn classify(ours: &Result<Reply, String>, theirs: &Result<Reply, String>) -> (k: &'static str)
    ensures
        k@ == kind_of(answer_view(*ours), answer_view(*theirs)),
{
    match (ours, theirs) {
        (Ok(a), Ok(b)) => match (a.error_word(), b.error_word()) {
            (Some(x), Some(y)) => {
                if x == y {
                    "same error, different wording"
                } else {
                    "both refused it, with different errors"
                }
            },
            (None, Some(_)) => "we accepted what redis refuses",
            (Some(_), None) => "we refused what redis accepts",
            (None, None) => "different reply",
        },
        _ => "one of them did not answer",
    }
}

/// An answer as it stands in a report: the reply's one line form, or what
/// went wrong inside angle brackets.
pub open spec fn shown(a: Result<ReplyView, Seq<char>>) -> Seq<char> {
    match a {
        Ok(r) => resp::render_view(r),
        Err(e) => seq!['<'] + e + seq!['>'],
    }
}

/// Two answers stand alike in a report exactly when they are the same
/// answer, so a step counts as a match only where both servers gave the
/// same reply, or failed with the same message.
pub proof fn lemma_shown_injective(a: Result<ReplyView, Seq<char>>, b: Result<ReplyView, Seq<char>>)
    ensures
        (shown(a) == shown(b)) == (a == b),
{
    if shown(a) == shown(b) {
        match (a, b) {
            (Ok(x), Ok(y)) => {
                resp::lemma_render_injective(x, y);
            },
            (Err(e), Err(f)) => {
                assert(shown(a).subrange(1, shown(a).len() - 1) =~= e);
                assert(shown(b).subrange(1, shown(b).len() - 1) =~= f);
            },
            (Ok(x), Err(_)) => {
                resp::lemma_render_first(x);
                assert(shown(b)[0] == '<');
            },
            (Err(_), Ok(y)) => {
                resp::lemma_render_first(y);
                assert(shown(a)[0] == '<');
            },
        }
    }
}

/// The arguments joined by single spaces.
pub open spec fn spaced(args: Seq<Seq<char>>) -> Seq<char>
    decreases args.len(),
{
    if args.len() == 0 {
        Seq::empty()
    } else if args.len() == 1 {
        args[0]
    } else {
        spaced(args.drop_last()) + seq![' '] + args.last()
    }
}

fn show_answer(a: &Result<Reply, String>) -> (s: String)
    ensures
        s@ == shown(answer_view(*a)),
{
    match a {
        Ok(r) => r.render(),
        Err(e) => {
            let mut s = String::new();
            text::push_char(&mut s, '<');
            s.append(e.as_str());
            text::push_char(&mut s, '>');
            s
        },
    }
}

/// The arguments joined by single spaces.
pub fn join_args(args: &Vec<String>) -> (s: String)
    ensures
        s@ == spaced(corpus::string_views(args@)),
{
    let ghost all = corpus::string_views(args@);
    let mut s = String::new();
    assert(all.take(0) =~= Seq::<Seq<char>>::empty());
    for i in 0..args.len()
        invariant
            all == corpus::string_views(args@),
            s@ == spaced(all.take(i as int)),
    {
        if i > 0 {
            text::push_char(&mut s, ' ');
        }
        s.append(args[i].as_str());
        assert(all.take(i + 1).drop_last() =~= all.take(i as int));
        assert(all.take(i + 1).last() == args@[i as int]@);
        proof {
            if i == 0 {
                assert(all.take(1) =~= seq![args@[0]@]);
                assert(Seq::<char>::empty() + args@[0]@ =~= args@[0]@);
            }
        }
    }
    assert(all.take(args@.len() as int) =~= all);
    s
}

/// One command where the two servers disagreed.
pub struct Divergence {
    pub file: String,
    pub line: usize,
    pub command: String,
    pub kind: &'static str,
    pub ours: String,
    pub theirs: String,
}

pub struct DivergenceView {
    pub file: Seq<char>,
    pub line: int,
    pub command: Seq<char>,
    pub kind: Seq<char>,
    pub ours: Seq<char>,
    pub theirs: Seq<char>,
}

impl View for Divergence {
    type V = DivergenceView;

    open spec fn view(&self) -> DivergenceView {
        DivergenceView {
            file: self.file@,
            line: self.line as int,
            command: self.command@,
            kind: self.kind@,
            ours: self.ours@,
            theirs: self.theirs@,
        }
    }
}

pub open spec fn divergence_views(v: Seq<Divergence>) -> Seq<DivergenceView> {
    v.map_values(|d: Divergence| d@)
}

/// What a run has seen so far: commands compared, mismatches the register
/// excused, and every other mismatch.
pub struct Tally {
    pub compared: usize,
    pub registered: usize,
    pub diverged: Vec<Divergence>,
}

impl Tally {
    pub fn new() -> (t: Tally)
        ensures
            t.compared == 0,
            t.registered == 0,
            t.diverged@.len() == 0,
    {
        Tally { compared: 0, registered: 0, diverged: Vec::new() }
    }

    /// Counts one command of corpus file `file`, to which we answered `mine`
    /// and Redis `theirs`. Answers that print the same are a match; a
    /// mismatch the register excuses is counted and not reported; any other
    /// mismatch is kept, with its sort, for the report.
    pub fn record(
        &mut self,
        register: &Register,
        file: &str,
        step: &Step,
        mine: Result<Reply, String>,
        theirs: Result<Reply, String>,
    )
        requires
            old(self).compared < usize::MAX,
            old(self).registered < usize::MAX,
        ensures
            final(self).compared == old(self).compared + 1,
            ({
                let m = shown(answer_view(mine));
                let t = shown(answer_view(theirs));
                let command = spaced(step@.args);
                if m == t {
                    &&& final(self).registered == old(self).registered
                    &&& final(self).diverged@ == old(self).diverged@
                } else if corpus::excused_by(register@, file@, command) {
                    &&& final(self).registered == old(self).registered + 1
                    &&& final(self).diverged@ == old(self).diverged@
                } else {
                    &&& final(self).registered == old(self).registered
                    &&& final(self).diverged@.len() == old(self).diverged@.len() + 1
                    &&& final(self).diverged@.subrange(0, old(self).diverged@.len() as int)
                        == old(self).diverged@
                    &&& final(self).diverged@.last()@ == (DivergenceView {
                        file: file@,
                        line: step.line as int,
                        command,
                        kind: kind_of(answer_view(mine), answer_view(theirs)),
                        ours: m,
                        theirs: t,
                    })
                }
            }),
    {
        self.compared = self.compared + 1;
        let kind = classify(&mine, &theirs);
        let m = show_answer(&mine);
        let t = show_answer(&theirs);
        if m == t {
            return;
        }
        let command = join_args(&step.args);
        if register.excuses(file, command.as_str()) {
            self.registered = self.registered + 1;
            return;
        }
        let d = Divergence {
            file: String::from_str(file),
            line: step.line,
            command,
            kind,
            ours: m,
            theirs: t,
        };
        let ghost before = self.diverged@;
        self.diverged.push(d);
        assert(self.diverged@.subrange(0, before.len() as int) == before);
    }

    /// Whether the run passes: nothing diverged that the register does not
    /// excuse.
    pub fn clean(&self) -> (r: bool)
        ensures
            r == (self.diverged@.len() == 0),
    {
        self.diverged.len() == 0
    }
}

/// The sorts of disagreement, worst first: a wall of wording differences at
/// the top of a report is how the one command we get outright wrong gets
/// missed.
pub open spec fn worst_first_kinds() -> Seq<Seq<char>> {
    seq![
        "we accepted what redis refuses"@,
        "different reply"@,
        "we refused what redis accepts"@,
        "both refused it, with different errors"@,
        "one of them did not answer"@,
        "same error, different wording"@,
    ]
}

/// The sorts of disagreement in the order the report lists them.
pub fn worst_first() -> (k: Vec<&'static str>)
    ensures
        k@.map_values(|s: &str| s@) == worst_first_kinds(),
{
    let k = vec![
        "we accepted what redis refuses",
        "different reply",
        "we refused what redis accepts",
        "both refused it, with different errors",
        "one of them did not answer",
        "same error, different wording",
    ];
    assert(k@.map_values(|s: &str| s@) =~= worst_first_kinds());
    k
}

/// The indices, in order, of the first `n` divergences that are of sort `kind`.
pub open spec fn indices_of(ds: Seq<DivergenceView>, kind: Seq<char>, n: int) -> Seq<int>
    decreases n,
{
    if n <= 0 {
        Seq::empty()
    } else if ds[n - 1].kind == kind {
        indices_of(ds, kind, n - 1).push(n - 1)
    } else {
        indices_of(ds, kind, n - 1)
    }
}

/// The divergences of one sort, by their indices in `diverged`, in order.
pub fn group(diverged: &[Divergence], kind: &str) -> (idx: Vec<usize>)
    ensures
        idx@.map_values(|i: usize| i as int) == indices_of(
            divergence_views(diverged@),
            kind@,
            diverged@.len() as int,
        ),
{
    let ghost ds = divergence_views(diverged@);
    let mut idx: Vec<usize> = Vec::new();
    assert(idx@.map_values(|i: usize| i as int) =~= Seq::<int>::empty());
    for i in 0..diverged.len()
        invariant
            ds == divergence_views(diverged@),
            idx@.map_values(|i: usize| i as int) == indices_of(ds, kind@, i as int),
    {
        assert(ds[i as int] == diverged@[i as int]@);
        if text::same_text(diverged[i].kind, kind) {
            let ghost before = idx@.map_values(|i: usize| i as int);
            idx.push(i);
            assert(idx@.map_values(|i: usize| i as int) =~= before.push(i as int));
        }
    }
    idx
}

/// What the command line asked for.
pub struct Opts {
    pub yodb: String,
    pub redis: String,
    pub resp3: bool,
    pub quiet: bool,
    pub dir: String,
    pub files: Vec<String>,
}

pub struct OptsView {
    pub yodb: Seq<char>,
    pub redis: Seq<char>,
    pub resp3: bool,
    pub quiet: bool,
    pub dir: Seq<char>,
    pub files: Seq<Seq<char>>,
}

impl View for Opts {
    type V = OptsView;

    open spec fn view(&self) -> OptsView {
        OptsView {
            yodb: self.yodb@,
            redis: self.redis@,
            resp3: self.resp3,
            quiet: self.quiet,
            dir: self.dir@,
            files: corpus::string_views(self.files@),
        }
    }
}

/// Why the command line made no sense.
pub enum ArgsFault {
    NeedsValue(Seq<char>),
    NoSuchOption(Seq<char>),
}

impl ArgsFault {
    pub open spec fn message(self) -> Seq<char> {
        match self {
            ArgsFault::NeedsValue(a) => a + " needs a value"@,
            ArgsFault::NoSuchOption(a) => "no such option: "@ + a,
        }
    }
}

/// The options before any argument is read.
pub open spec fn default_opts() -> OptsView {
    OptsView {
        yodb: "../yo/target/release/yodb"@,
        redis: "redis-server"@,
        resp3: false,
        quiet: false,
        dir: "corpus"@,
        files: Seq::empty(),
    }
}

/// Reading the arguments `args[at..]` into `o`: `-h` or `--help` asks for
/// the usage text and nothing else, `--yodb`, `--redis` and `--corpus` take
/// the next argument, any other argument starting with `-` is refused, and
/// the rest are corpus files.
pub open spec fn read_args(args: Seq<Seq<char>>, at: int, o: OptsView) -> Result<
    Option<OptsView>,
    ArgsFault,
>
    decreases args.len() - at,
{
    if at < 0 || at >= args.len() {
        Ok(Some(o))
    } else {
        let a = args[at];
        if a == "-h"@ || a == "--help"@ {
            Ok(None)
        } else if a == "--resp3"@ {
            read_args(args, at + 1, OptsView { resp3: true, ..o })
        } else if a == "--quiet"@ {
            read_args(args, at + 1, OptsView { quiet: true, ..o })
        } else if a == "--yodb"@ || a == "--redis"@ || a == "--corpus"@ {
            if at + 1 < args.len() {
                let v = args[at + 1];
                read_args(
                    args,
                    at + 2,
                    if a == "--yodb"@ {
                        OptsView { yodb: v, ..o }
                    } else if a == "--redis"@ {
                        OptsView { redis: v, ..o }
                    } else {
                        OptsView { dir: v, ..o }
                    },
                )
            } else {
                Err(ArgsFault::NeedsValue(a))
            }
        } else if a.len() > 0 && a[0] == '-' {
            Err(ArgsFault::NoSuchOption(a))
        } else {
            read_args(args, at + 1, OptsView { files: o.files.push(a), ..o })
        }
    }
}

/// Reads the command line's arguments (the program name left out). `None`
/// asks for the usage text; an error says what made no sense.
pub fn parse_args(args: &[String]) -> (r: Result<Option<Opts>, String>)
    ensures
        r is Ok <==> read_args(corpus::string_views(args@), 0, default_opts()) is Ok,
        r matches Ok(o) ==> read_args(corpus::string_views(args@), 0, default_opts())
            == Ok::<_, ArgsFault>(
            match o {
                Some(x) => Some(x@),
                None => None,
            },
        ),
        r matches Err(e) ==> (read_args(corpus::string_views(args@), 0, default_opts()) matches Err(
            f,
        ) && e@ == f.message()),
{
    let ghost all = corpus::string_views(args@);
    let mut o = Opts {
        yodb: String::from_str("../yo/target/release/yodb"),
        redis: String::from_str("redis-server"),
        resp3: false,
        quiet: false,
        dir: String::from_str("corpus"),
        files: Vec::new(),
    };
    assert(corpus::string_views(o.files@) =~= Seq::<Seq<char>>::empty());
    assert(o@ == default_opts());
    let mut at: usize = 0;
    while at < args.len()
        invariant
            all == corpus::string_views(args@),
            at <= args@.len(),
            read_args(all, 0, default_opts()) == read_args(all, at as int, o@),
        decreases args.len() - at,
    {
        let a = args[at].as_str();
        assert(all[at as int] == a@);
        at = at + 1;
        if text::same_text(a, "-h") || text::same_text(a, "--help") {
            return Ok(None);
        } else if text::same_text(a, "--resp3") {
            o.resp3 = true;
        } else if text::same_text(a, "--quiet") {
            o.quiet = true;
        } else if text::same_text(a, "--yodb") || text::same_text(a, "--redis")
            || text::same_text(a, "--corpus") {
            if at >= args.len() {
                let mut m = String::from_str(a);
                m.append(" needs a value");
                return Err(m);
            }
            let v = args[at].clone();
            assert(all[at as int] == v@);
            at = at + 1;
            if text::same_text(a, "--yodb") {
                o.yodb = v;
            } else if text::same_text(a, "--redis") {
                o.redis = v;
            } else {
                o.dir = v;
            }
        } else if starts_with_dash(a) {
            let mut m = String::from_str("no such option: ");
            m.append(a);
            return Err(m);
        } else {
            let ghost before = corpus::string_views(o.files@);
            o.files.push(String::from_str(a));
            assert(corpus::string_views(o.files@) =~= before.push(a@));
        }
    }
    Ok(Some(o))
}

/// Whether `a` starts with `-`.
fn starts_with_dash(a: &str) -> (r: bool)
    ensures
        r == (a@.len() > 0 && a@[0] == '-'),
{
    let v = text::chars_of(a);
    v.len() > 0 && v[0] == '-'
}

/// Every sort of disagreement `classify` can give is one the report lists.
pub proof fn lemma_every_kind_is_listed(
    ours: Result<ReplyView, Seq<char>>,
    theirs: Result<ReplyView, Seq<char>>,
)
    ensures
        worst_first_kinds().contains(kind_of(ours, theirs)),
{
    let k = worst_first_kinds();
    let x = kind_of(ours, theirs);
    if x == k[0] {
    } else if x == k[1] {
    } else if x == k[2] {
    } else if x == k[3] {
    } else if x == k[4] {
    } else {
        assert(x == k[5]);
    }
}

proof fn lemma_indices_of(ds: Seq<DivergenceView>, kind: Seq<char>, n: int, i: int)
    requires
        0 <= n <= ds.len(),
    ensures
        indices_of(ds, kind, n).contains(i) <==> (0 <= i < n && ds[i].kind == kind),
    decreases n,
{
    if n > 0 {
        lemma_indices_of(ds, kind, n - 1, i);
        if ds[n - 1].kind == kind {
            let prev = indices_of(ds, kind, n - 1);
            let cur = prev.push(n - 1);
            assert(indices_of(ds, kind, n) == cur);
            if cur.contains(i) {
                let j = choose|j: int| 0 <= j < cur.len() && cur[j] == i;
                if j < prev.len() {
                    assert(prev[j] == i);
                    assert(prev.contains(i));
                }
            }
            if 0 <= i < n && ds[i].kind == kind {
                if i == n - 1 {
                    assert(cur[prev.len() as int] == i);
                } else {
                    let j = choose|j: int| 0 <= j < prev.len() && prev[j] == i;
                    assert(cur[j] == i);
                }
            }
        }
    }
}

/// Nothing that diverged is left out of the report or listed twice: each
/// divergence whose sort the report knows stands in the group of exactly one
/// sort.
pub proof fn lemma_each_divergence_listed_once(ds: Seq<DivergenceView>, i: int)
    requires
        0 <= i < ds.len(),
        worst_first_kinds().contains(ds[i].kind),
    ensures
        exists|k: int|
            0 <= k < worst_first_kinds().len() && (#[trigger] indices_of(
                ds,
                worst_first_kinds()[k],
                ds.len() as int,
            )).contains(i),
        forall|k1: int, k2: int|
            0 <= k1 < worst_first_kinds().len() && 0 <= k2 < worst_first_kinds().len()
                && (#[trigger] indices_of(ds, worst_first_kinds()[k1], ds.len() as int)).contains(i)
                && (#[trigger] indices_of(ds, worst_first_kinds()[k2], ds.len() as int)).contains(
                i,
            ) ==> k1 == k2,
{
    let kinds = worst_first_kinds();
    reveal_strlit("we accepted what redis refuses");
    reveal_strlit("different reply");
    reveal_strlit("we refused what redis accepts");
    reveal_strlit("both refused it, with different errors");
    reveal_strlit("one of them did not answer");
    reveal_strlit("same error, different wording");
    let k = choose|k: int| 0 <= k < kinds.len() && kinds[k] == ds[i].kind;
    lemma_indices_of(ds, kinds[k], ds.len() as int, i);
    assert forall|k1: int, k2: int|
        0 <= k1 < kinds.len() && 0 <= k2 < kinds.len() && (#[trigger] indices_of(
            ds,
            kinds[k1],
            ds.len() as int,
        )).contains(i) && (#[trigger] indices_of(ds, kinds[k2], ds.len() as int)).contains(
            i,
        ) implies k1 == k2 by {
        lemma_indices_of(ds, kinds[k1], ds.len() as int, i);
        lemma_indices_of(ds, kinds[k2], ds.len() as int, i);
        assert(kinds[k1] == kinds[k2]);
        if k1 != k2 {
            assert(kinds[k1][0] != kinds[k2][0] || kinds[k1].len() != kinds[k2].len());
        }
    }
}


proof fn lemma_read_args_shift(p: Seq<Seq<char>>, e: Seq<Seq<char>>, k: int, o: OptsView)
    requires
        0 <= k <= e.len(),
    ensures
        read_args(p + e, p.len() + k, o) == read_args(e, k, o),
    decreases e.len() - k,
{
    let b = p + e;
    if k < e.len() {
        assert(b[p.len() + k] == e[k]);
        if k + 1 < e.len() {
            assert(b[p.len() + k + 1] == e[k + 1]);
        }
        let a = e[k];
        if a == "-h"@ || a == "--help"@ {
        } else if a == "--resp3"@ {
            lemma_read_args_shift(p, e, k + 1, OptsView { resp3: true, ..o });
        } else if a == "--quiet"@ {
            lemma_read_args_shift(p, e, k + 1, OptsView { quiet: true, ..o });
        } else if a == "--yodb"@ || a == "--redis"@ || a == "--corpus"@ {
            if k + 1 < e.len() {
                let v = e[k + 1];
                if a == "--yodb"@ {
                    lemma_read_args_shift(p, e, k + 2, OptsView { yodb: v, ..o });
                } else if a == "--redis"@ {
                    lemma_read_args_shift(p, e, k + 2, OptsView { redis: v, ..o });
                } else {
                    lemma_read_args_shift(p, e, k + 2, OptsView { dir: v, ..o });
                }
            }
        } else if !(a.len() > 0 && a[0] == '-') {
            lemma_read_args_shift(p, e, k + 1, OptsView { files: o.files.push(a), ..o });
        }
    }
}

/// Reading arguments that end in options (not in the usage text or an
/// error), then more arguments, is reading the more arguments from those
/// options.
proof fn lemma_read_args_append(args: Seq<Seq<char>>, extra: Seq<Seq<char>>, at: int, o: OptsView)
    requires
        0 <= at <= args.len(),
        read_args(args, at, o) matches Ok(Some(_)),
    ensures
        read_args(args + extra, at, o) == read_args(extra, 0, read_args(args, at, o)->Ok_0->Some_0),
    decreases args.len() - at,
{
    let b = args + extra;
    if at == args.len() {
        lemma_read_args_shift(args, extra, 0, o);
    } else {
        assert(b[at] == args[at]);
        if at + 1 < args.len() {
            assert(b[at + 1] == args[at + 1]);
        }
        let a = args[at];
        if a == "--resp3"@ {
            lemma_read_args_append(args, extra, at + 1, OptsView { resp3: true, ..o });
        } else if a == "--quiet"@ {
            lemma_read_args_append(args, extra, at + 1, OptsView { quiet: true, ..o });
        } else if a == "--yodb"@ || a == "--redis"@ || a == "--corpus"@ {
            let v = args[at + 1];
            if a == "--yodb"@ {
                lemma_read_args_append(args, extra, at + 2, OptsView { yodb: v, ..o });
            } else if a == "--redis"@ {
                lemma_read_args_append(args, extra, at + 2, OptsView { redis: v, ..o });
            } else {
                lemma_read_args_append(args, extra, at + 2, OptsView { dir: v, ..o });
            }
        } else if !(a == "-h"@ || a == "--help"@) && !(a.len() > 0 && a[0] == '-') {
            lemma_read_args_append(args, extra, at + 1, OptsView { files: o.files.push(a), ..o });
        }
    }
}

/// Each option of the command line sets its own setting and no other:
/// given arguments that read as options `o`, one more `--resp3` turns on
/// RESP3 and changes nothing else, one more `--quiet` turns on quiet and
/// changes nothing else, `--yodb`, `--redis` or `--corpus` with a value set
/// that one path, an argument that does not start with `-` adds a corpus
/// file, and `-h` asks for the usage text. With no arguments at all every
/// setting is its default, RESP3 and quiet off.
pub proof fn lemma_each_option_sets_its_own(
    args: Seq<Seq<char>>,
    o: OptsView,
    v: Seq<char>,
    f: Seq<char>,
)
    requires
        read_args(args, 0, default_opts()) == Ok::<_, ArgsFault>(Some(o)),
    ensures
        read_args(Seq::empty(), 0, default_opts()) == Ok::<_, ArgsFault>(Some(default_opts())),
        !default_opts().resp3 && !default_opts().quiet && default_opts().files.len() == 0,
        read_args(args.push("--resp3"@), 0, default_opts()) == Ok::<_, ArgsFault>(
            Some(OptsView { resp3: true, ..o }),
        ),
        read_args(args.push("--quiet"@), 0, default_opts()) == Ok::<_, ArgsFault>(
            Some(OptsView { quiet: true, ..o }),
        ),
        read_args(args + seq!["--yodb"@, v], 0, default_opts()) == Ok::<_, ArgsFault>(
            Some(OptsView { yodb: v, ..o }),
        ),
        read_args(args + seq!["--redis"@, v], 0, default_opts()) == Ok::<_, ArgsFault>(
            Some(OptsView { redis: v, ..o }),
        ),
        read_args(args + seq!["--corpus"@, v], 0, default_opts()) == Ok::<_, ArgsFault>(
            Some(OptsView { dir: v, ..o }),
        ),
        !(f.len() > 0 && f[0] == '-') ==> read_args(args.push(f), 0, default_opts())
            == Ok::<_, ArgsFault>(Some(OptsView { files: o.files.push(f), ..o })),
        read_args(args.push("-h"@), 0, default_opts()) == Ok::<_, ArgsFault>(None::<OptsView>),
        read_args(args.push("--help"@), 0, default_opts()) == Ok::<_, ArgsFault>(None::<OptsView>),
        read_args(args.push("--yodb"@), 0, default_opts()) == Err::<Option<OptsView>, _>(
            ArgsFault::NeedsValue("--yodb"@),
        ),
        read_args(args.push("--redis"@), 0, default_opts()) == Err::<Option<OptsView>, _>(
            ArgsFault::NeedsValue("--redis"@),
        ),
        read_args(args.push("--corpus"@), 0, default_opts()) == Err::<Option<OptsView>, _>(
            ArgsFault::NeedsValue("--corpus"@),
        ),
        f.len() > 0 && f[0] == '-' && f != "-h"@ && f != "--help"@ && f != "--resp3"@ && f
            != "--quiet"@ && f != "--yodb"@ && f != "--redis"@ && f != "--corpus"@ ==> read_args(
            args.push(f),
            0,
            default_opts(),
        ) == Err::<Option<OptsView>, _>(ArgsFault::NoSuchOption(f)),
{
    let d = default_opts();
    reveal_strlit("--resp3");
    reveal_strlit("--quiet");
    reveal_strlit("--yodb");
    reveal_strlit("--redis");
    reveal_strlit("--corpus");
    reveal_strlit("-h");
    reveal_strlit("--help");
    assert("--quiet"@[2] != "--resp3"@[2]);
    assert("--yodb"@[2] != "--help"@[2]);
    assert("--redis"@[4] != "--resp3"@[4]);
    assert("--redis"@[2] != "--quiet"@[2]);
    assert(read_args(args.push("--resp3"@), 0, d) == Ok::<_, ArgsFault>(
        Some(OptsView { resp3: true, ..o }),
    )) by {
        assert(args.push("--resp3"@) =~= args + seq!["--resp3"@]);
        lemma_read_args_append(args, seq!["--resp3"@], 0, d);
        assert(seq!["--resp3"@][0] == "--resp3"@);
        assert(read_args(seq!["--resp3"@], 1, OptsView { resp3: true, ..o }) == Ok::<_, ArgsFault>(
            Some(OptsView { resp3: true, ..o }),
        ));
    }
    assert(read_args(args.push("--quiet"@), 0, d) == Ok::<_, ArgsFault>(
        Some(OptsView { quiet: true, ..o }),
    )) by {
        assert(args.push("--quiet"@) =~= args + seq!["--quiet"@]);
        lemma_read_args_append(args, seq!["--quiet"@], 0, d);
        assert(seq!["--quiet"@][0] == "--quiet"@);
        assert(read_args(seq!["--quiet"@], 1, OptsView { quiet: true, ..o }) == Ok::<_, ArgsFault>(
            Some(OptsView { quiet: true, ..o }),
        ));
    }
    assert(read_args(args + seq!["--yodb"@, v], 0, d) == Ok::<_, ArgsFault>(
        Some(OptsView { yodb: v, ..o }),
    )) by {
        lemma_read_args_append(args, seq!["--yodb"@, v], 0, d);
        assert(seq!["--yodb"@, v][0] == "--yodb"@);
        assert(read_args(seq!["--yodb"@, v], 2, OptsView { yodb: v, ..o }) == Ok::<_, ArgsFault>(
            Some(OptsView { yodb: v, ..o }),
        ));
        assert(seq!["--yodb"@, v][1] == v);
    }
    assert(read_args(args + seq!["--redis"@, v], 0, d) == Ok::<_, ArgsFault>(
        Some(OptsView { redis: v, ..o }),
    )) by {
        lemma_read_args_append(args, seq!["--redis"@, v], 0, d);
        assert(seq!["--redis"@, v][0] == "--redis"@);
        assert(read_args(seq!["--redis"@, v], 2, OptsView { redis: v, ..o }) == Ok::<_, ArgsFault>(
            Some(OptsView { redis: v, ..o }),
        ));
        assert(seq!["--redis"@, v][1] == v);
    }
    assert(read_args(args + seq!["--corpus"@, v], 0, d) == Ok::<_, ArgsFault>(
        Some(OptsView { dir: v, ..o }),
    )) by {
        lemma_read_args_append(args, seq!["--corpus"@, v], 0, d);
        assert(seq!["--corpus"@, v][0] == "--corpus"@);
        assert(read_args(seq!["--corpus"@, v], 2, OptsView { dir: v, ..o }) == Ok::<_, ArgsFault>(
            Some(OptsView { dir: v, ..o }),
        ));
        assert(seq!["--corpus"@, v][1] == v);
    }
    if !(f.len() > 0 && f[0] == '-') {
        assert(args.push(f) =~= args + seq![f]);
        lemma_read_args_append(args, seq![f], 0, d);
        assert(seq![f][0] == f);
        assert(read_args(seq![f], 1, OptsView { files: o.files.push(f), ..o }) == Ok::<_, ArgsFault>(
            Some(OptsView { files: o.files.push(f), ..o }),
        ));
        assert(f != "-h"@ && f != "--help"@ && f != "--resp3"@ && f != "--quiet"@ && f
            != "--yodb"@ && f != "--redis"@ && f != "--corpus"@) by {
            if f.len() > 0 {
                assert(f[0] != '-');
            }
        }
    }
    assert(read_args(args.push("--yodb"@), 0, d) == Err::<Option<OptsView>, _>(
        ArgsFault::NeedsValue("--yodb"@),
    )) by {
        assert(args.push("--yodb"@) =~= args + seq!["--yodb"@]);
        lemma_read_args_append(args, seq!["--yodb"@], 0, d);
        assert(seq!["--yodb"@][0] == "--yodb"@);
    }
    assert(read_args(args.push("--redis"@), 0, d) == Err::<Option<OptsView>, _>(
        ArgsFault::NeedsValue("--redis"@),
    )) by {
        assert(args.push("--redis"@) =~= args + seq!["--redis"@]);
        lemma_read_args_append(args, seq!["--redis"@], 0, d);
        assert(seq!["--redis"@][0] == "--redis"@);
    }
    assert(read_args(args.push("--corpus"@), 0, d) == Err::<Option<OptsView>, _>(
        ArgsFault::NeedsValue("--corpus"@),
    )) by {
        assert(args.push("--corpus"@) =~= args + seq!["--corpus"@]);
        lemma_read_args_append(args, seq!["--corpus"@], 0, d);
        assert(seq!["--corpus"@][0] == "--corpus"@);
    }
    if f.len() > 0 && f[0] == '-' && f != "-h"@ && f != "--help"@ && f != "--resp3"@ && f
        != "--quiet"@ && f != "--yodb"@ && f != "--redis"@ && f != "--corpus"@ {
        assert(args.push(f) =~= args + seq![f]);
        lemma_read_args_append(args, seq![f], 0, d);
        assert(seq![f][0] == f);
    }
    assert(read_args(args.push("-h"@), 0, d) == Ok::<_, ArgsFault>(None::<OptsView>)) by {
        assert(args.push("-h"@) =~= args + seq!["-h"@]);
        lemma_read_args_append(args, seq!["-h"@], 0, d);
        assert(seq!["-h"@][0] == "-h"@);
    }
    assert(read_args(args.push("--help"@), 0, d) == Ok::<_, ArgsFault>(None::<OptsView>)) by {
        assert(args.push("--help"@) =~= args + seq!["--help"@]);
        lemma_read_args_append(args, seq!["--help"@], 0, d);
        assert(seq!["--help"@][0] == "--help"@);
    }
}

/// Once `-h` or `--help` has been read as an option, nothing after it
/// changes the answer: the usage text is asked for.
pub proof fn lemma_help_ends_reading(args: Seq<Seq<char>>, extra: Seq<Seq<char>>, o: OptsView)
    requires
        read_args(args, 0, o) == Ok::<_, ArgsFault>(None::<OptsView>),
    ensures
        read_args(args + extra, 0, o) == Ok::<_, ArgsFault>(None::<OptsView>),
{
    lemma_read_args_help(args, extra, 0, o);
}

proof fn lemma_read_args_help(args: Seq<Seq<char>>, extra: Seq<Seq<char>>, at: int, o: OptsView)
    requires
        0 <= at <= args.len(),
        read_args(args, at, o) == Ok::<_, ArgsFault>(None::<OptsView>),
    ensures
        read_args(args + extra, at, o) == Ok::<_, ArgsFault>(None::<OptsView>),
    decreases args.len() - at,
{
    let b = args + extra;
    if at < args.len() {
        assert(b[at] == args[at]);
        if at + 1 < args.len() {
            assert(b[at + 1] == args[at + 1]);
        }
        let a = args[at];
        if a == "-h"@ || a == "--help"@ {
        } else if a == "--resp3"@ {
            lemma_read_args_help(args, extra, at + 1, OptsView { resp3: true, ..o });
        } else if a == "--quiet"@ {
            lemma_read_args_help(args, extra, at + 1, OptsView { quiet: true, ..o });
        } else if a == "--yodb"@ || a == "--redis"@ || a == "--corpus"@ {
            let v = args[at + 1];
            if a == "--yodb"@ {
                lemma_read_args_help(args, extra, at + 2, OptsView { yodb: v, ..o });
            } else if a == "--redis"@ {
                lemma_read_args_help(args, extra, at + 2, OptsView { redis: v, ..o });
            } else {
                lemma_read_args_help(args, extra, at + 2, OptsView { dir: v, ..o });
            }
        } else if !(a.len() > 0 && a[0] == '-') {
            lemma_read_args_help(args, extra, at + 1, OptsView { files: o.files.push(a), ..o });
        }
    }
}

} // verus!
