//! requirements.txt — pip's install-from-a-file format.
//!
//! This is not a lockfile. It is the input a resolver takes, not the answer it
//! gives, and it is read here because people commit it and then treat it as
//! one: there is no resolved version unless somebody typed `==`, and there is
//! no dependency information at all. So every package is a root, `edges` is
//! empty on purpose, and `records_edges` says so.
//!
//! `-r`/`-c` includes are not followed, `-e` editables and other options are
//! not packages, and a requirement that names a *location* rather than a
//! project — a URL, a VCS reference, a path — is skipped rather than refusing
//! the whole file over one line.
use crate::error::{Error, Result};
use crate::lock::{self, Ecosystem, Origin, Package, PackageView, Pin, PinView, Tree};
use crate::text;
use vstd::prelude::*;

verus! {

/// A `#` that starts a comment: pip's rule is `(^|\s+)#.*$`, so a `#` inside
/// a URL fragment is not one.
pub open spec fn starts_comment(line: Seq<char>, i: int) -> bool {
    line[i] == '#' && (i == 0 || text::is_space(line[i - 1]))
}

/// The first comment-starting `#` at or after `from`, or the length.
pub open spec fn comment_from(line: Seq<char>, from: int) -> int
    decreases line.len() - from,
{
    if from >= line.len() || from < 0 {
        line.len() as int
    } else if starts_comment(line, from) {
        from
    } else {
        comment_from(line, from + 1)
    }
}

pub open spec fn strip_comment_spec(line: Seq<char>) -> Seq<char> {
    line.take(comment_from(line, 0))
}

proof fn lemma_comment_from_bounds(line: Seq<char>, from: int)
    requires
        0 <= from,
    ensures
        comment_from(line, from) <= line.len(),
        from <= line.len() ==> from <= comment_from(line, from),
    decreases line.len() - from,
{
    if from < line.len() && !starts_comment(line, from) {
        lemma_comment_from_bounds(line, from + 1);
    }
}

/// The line with any comment cut off.
fn strip_comment(line: &[char]) -> (r: Vec<char>)
    ensures
        r@ == strip_comment_spec(line@),
{
    let mut i: usize = 0;
    while i < line.len()
        invariant
            i <= line@.len(),
            comment_from(line@, 0) == comment_from(line@, i as int),
        decreases line@.len() - i,
    {
        let after_space = i == 0 || text::space(line[i - 1]);
        if line[i] == '#' && after_space {
            proof {
                lemma_comment_from_bounds(line@, 0);
            }
            return text::slice(line, 0, i);
        }
        i = i + 1;
    }
    proof {
        assert(line@.take(line@.len() as int) =~= line@);
    }
    text::slice(line, 0, line.len())
}

/// The words of `s` finished so far, and the one in progress.
pub open spec fn words_acc(s: Seq<char>) -> (Seq<Seq<char>>, Seq<char>)
    decreases s.len(),
{
    if s.len() == 0 {
        (seq![], seq![])
    } else {
        let (w, cur) = words_acc(s.drop_last());
        let c = s.last();
        if text::is_space(c) {
            if cur.len() > 0 {
                (w.push(cur), seq![])
            } else {
                (w, cur)
            }
        } else {
            (w, cur.push(c))
        }
    }
}

/// The runs of non-whitespace in `s`, as `str::split_whitespace` gives them.
pub open spec fn words(s: Seq<char>) -> Seq<Seq<char>> {
    let (w, cur) = words_acc(s);
    if cur.len() > 0 {
        w.push(cur)
    } else {
        w
    }
}

fn split_words(s: &[char]) -> (r: Vec<Vec<char>>)
    ensures
        text::seqs(r@) == words(s@),
{
    let mut w: Vec<Vec<char>> = Vec::new();
    let mut cur: Vec<char> = Vec::new();
    for i in 0..s.len()
        invariant
            (text::seqs(w@), cur@) == words_acc(s@.take(i as int)),
    {
        proof {
            assert(s@.take(i + 1).drop_last() =~= s@.take(i as int));
            assert(s@.take(i + 1).last() == s@[i as int]);
        }
        if text::space(s[i]) {
            if cur.len() > 0 {
                let ghost old_w = w@;
                let piece = cur;
                w.push(piece);
                cur = Vec::new();
                proof {
                    assert(text::seqs(w@) =~= text::seqs(old_w).push(piece@));
                    assert(cur@ =~= Seq::<char>::empty());
                }
            }
        } else {
            cur.push(s[i]);
        }
    }
    proof {
        assert(s@.take(s@.len() as int) =~= s@);
    }
    if cur.len() > 0 {
        let ghost old_w = w@;
        w.push(cur);
        proof {
            assert(text::seqs(w@) =~= text::seqs(old_w).push(cur@));
        }
    }
    w
}

/// The requirement's words glued back together up to the first option, and
/// whether an option from there on is a `--hash`: `(requirement, options
/// seen, hashed)`.
pub open spec fn glue(ws: Seq<Seq<char>>) -> (Seq<char>, bool, bool)
    decreases ws.len(),
{
    if ws.len() == 0 {
        (seq![], false, false)
    } else {
        let (spec, options, hashed) = glue(ws.drop_last());
        let t = ws.last();
        let opts = options || "-"@.is_prefix_of(t);
        if opts {
            (spec, true, hashed || "--hash"@.is_prefix_of(t))
        } else {
            (spec + t, false, hashed)
        }
    }
}

/// A character PEP 508 allows in a name.
pub open spec fn name_char(c: char) -> bool {
    text::is_alnum(c) || c == '.' || c == '_' || c == '-'
}

/// Where the leading run of name characters ends.
pub open spec fn name_end(s: Seq<char>, from: int) -> int
    decreases s.len() - from,
{
    if from >= s.len() || from < 0 {
        s.len() as int
    } else if !name_char(s[from]) {
        from
    } else {
        name_end(s, from + 1)
    }
}

proof fn lemma_name_end_bounds(s: Seq<char>, from: int)
    requires
        0 <= from,
    ensures
        comment_bound(s, from),
    decreases s.len() - from,
{
    if from < s.len() && name_char(s[from]) {
        lemma_name_end_bounds(s, from + 1);
    }
}

pub open spec fn comment_bound(s: Seq<char>, from: int) -> bool {
    &&& name_end(s, from) <= s.len()
    &&& from <= s.len() ==> from <= name_end(s, from)
}

/// The comparison operators pip accepts, longest first so `==` does not
/// shadow `===`, each with how tightly it pins: 0 exact, 1 capped, 2 open at
/// one end, 3 excluding one version and bounding nothing.
pub open spec fn op_list() -> Seq<(Seq<char>, int)> {
    seq![
        ("==="@, 0int),
        ("=="@, 0int),
        ("~="@, 1int),
        ("!="@, 3int),
        ("<="@, 2int),
        (">="@, 2int),
        ("<"@, 2int),
        (">"@, 2int),
    ]
}

/// The first operator a clause starts with, searching from `k`.
pub open spec fn op_from(clause: Seq<char>, k: int) -> Option<(Seq<char>, int)>
    decreases 8 - k,
{
    if k < 0 || k >= 8 {
        None
    } else if op_list()[k].0.is_prefix_of(clause) {
        Some(op_list()[k])
    } else {
        op_from(clause, k + 1)
    }
}

/// A character PEP 440 allows in a version, loosely.
pub open spec fn version_char(c: char) -> bool {
    text::is_alnum(c) || c == '.' || c == '*' || c == '+' || c == '!' || c == '-' || c == '_'
}

pub open spec fn is_version(v: Seq<char>) -> bool {
    v.len() > 0 && forall|i: int| 0 <= i < v.len() ==> version_char(#[trigger] v[i])
}

/// One comma-separated clause: how tight it is and the version it names.
pub open spec fn clause_kind(clause: Seq<char>) -> Option<(int, Seq<char>)> {
    match op_from(clause, 0) {
        None => None,
        Some((op, kind)) => {
            let value = clause.skip(op.len() as int);
            if !is_version(value) {
                None
            } else if kind == 0 && value.contains('*') {
                Some((1int, value))
            } else {
                Some((kind, value))
            }
        },
    }
}

/// The tightest clause so far, and the version of the last exact one.
pub open spec fn classify_acc(clauses: Seq<Seq<char>>) -> Option<(int, Seq<char>)>
    decreases clauses.len(),
{
    if clauses.len() == 0 {
        Some((3int, seq![]))
    } else {
        match classify_acc(clauses.drop_last()) {
            None => None,
            Some((t, e)) => match clause_kind(clauses.last()) {
                None => None,
                Some((k, v)) => Some(
                    (
                        if k < t {
                            k
                        } else {
                            t
                        },
                        if k == 0 {
                            v
                        } else {
                            e
                        },
                    ),
                ),
            },
        }
    }
}

/// How a specifier pins the version, and the version it pins to when it is
/// exact. `None` when the text is not a specifier at all.
pub open spec fn classify_spec(spec: Seq<char>) -> Option<(PinView, Seq<char>)> {
    if spec.len() == 0 || spec[0] == '@' {
        Some((PinView::Unconstrained, seq![]))
    } else {
        match classify_acc(text::split(spec, ',')) {
            None => None,
            Some((t, e)) => Some(
                if t == 0 {
                    (PinView::Exact, e)
                } else if t == 1 {
                    (PinView::Compatible(spec), seq![])
                } else if t == 2 {
                    (PinView::Range(spec), seq![])
                } else {
                    (PinView::Unconstrained, seq![])
                },
            ),
        }
    }
}

proof fn lemma_split_whole(s: Seq<char>, c: char)
    requires
        !s.contains(c),
    ensures
        text::split(s, c) == seq![s],
    decreases s.len(),
{
    if s.len() == 0 {
        assert(s =~= Seq::<char>::empty());
    } else {
        let r = s.drop_last();
        assert(!r.contains(c)) by {
            if r.contains(c) {
                let k = choose|k: int| 0 <= k < r.len() && r[k] == c;
                assert(s[k] == c);
            }
        }
        lemma_split_whole(r, c);
        assert(s[s.len() - 1] == s.last());
        assert(r.push(s.last()) =~= s);
    }
}

/// A specifier of one clause, `op` then the version `v`, classifies as that
/// clause does.
proof fn lemma_one_clause(op: Seq<char>, v: Seq<char>)
    requires
        is_version(v),
        op.len() > 0,
        op[0] != '@',
        forall|i: int| 0 <= i < op.len() ==> (#[trigger] op[i]) != ',',
    ensures
        classify_spec(op + v) == match clause_kind(op + v) {
            None => None,
            Some((k, e)) => Some(
                if k == 0 {
                    (PinView::Exact, e)
                } else if k == 1 {
                    (PinView::Compatible(op + v), seq![])
                } else if k == 2 {
                    (PinView::Range(op + v), seq![])
                } else {
                    (PinView::Unconstrained, seq![])
                },
            ),
        },
{
    let t = op + v;
    assert(!t.contains(',')) by {
        if t.contains(',') {
            let k = choose|k: int| 0 <= k < t.len() && t[k] == ',';
            if k >= op.len() {
                assert(t[k] == v[k - op.len()]);
                assert(version_char(v[k - op.len()]));
            }
        }
    }
    lemma_split_whole(t, ',');
    let cs = seq![t];
    assert(cs.drop_last() =~= Seq::<Seq<char>>::empty());
    assert(cs.last() == t);
    assert(classify_acc(cs.drop_last()) == Some((3int, Seq::<char>::empty())));
    lemma_op_kind(t, 0);
    assert(t[0] == op[0]);
    assert(t.len() > 0);
}

proof fn lemma_op_kind(clause: Seq<char>, k: int)
    ensures
        op_from(clause, k) matches Some((o, kd)) ==> 0 <= kd <= 3,
    decreases 8 - k,
{
    if 0 <= k < 8 && !op_list()[k].0.is_prefix_of(clause) {
        lemma_op_kind(clause, k + 1);
    }
}

/// A `~=` clause is a compatible release: capped, never an exact pin, and
/// it records no exact version.
pub proof fn lemma_compatible_release(v: Seq<char>)
    requires
        is_version(v),
    ensures
        classify_spec("~="@ + v) == Some((PinView::Compatible("~="@ + v), Seq::<char>::empty())),
{
    reveal_strlit("~=");
    reveal_strlit("===");
    reveal_strlit("==");
    let t = "~="@ + v;
    lemma_one_clause("~="@, v);
    assert(t[0] == '~');
    assert(!"==="@.is_prefix_of(t)) by {
        if "==="@.is_prefix_of(t) {
            assert(t.subrange(0, 3)[0] == t[0]);
        }
    }
    assert(!"=="@.is_prefix_of(t)) by {
        if "=="@.is_prefix_of(t) {
            assert(t.subrange(0, 2)[0] == t[0]);
        }
    }
    assert("~="@.is_prefix_of(t)) by {
        assert(t.subrange(0, 2) =~= "~="@);
    }
    assert(op_list()[0].0 == "==="@ && op_list()[1].0 == "=="@ && op_list()[2] == ("~="@, 1int));
    assert(op_from(t, 2) == Some(("~="@, 1int)));
    assert(op_from(t, 1) == Some(("~="@, 1int)));
    assert(op_from(t, 0) == Some(("~="@, 1int)));
    assert(t.skip(2) =~= v);
    assert(clause_kind(t) == Some((1int, v)));
}

/// An `==` clause naming a version without a wildcard pins exactly that
/// version.
pub proof fn lemma_exact_pin(v: Seq<char>)
    requires
        is_version(v),
        !v.contains('*'),
    ensures
        classify_spec("=="@ + v) == Some((PinView::Exact, v)),
{
    reveal_strlit("===");
    reveal_strlit("==");
    let t = "=="@ + v;
    lemma_one_clause("=="@, v);
    assert(t[0] == '=' && t[1] == '=' && t[2] == v[0]);
    assert(v[0] != '=') by {
        assert(version_char(v[0]));
    }
    assert(!"==="@.is_prefix_of(t)) by {
        if "==="@.is_prefix_of(t) {
            assert(t.subrange(0, 3)[2] == t[2]);
        }
    }
    assert("=="@.is_prefix_of(t)) by {
        assert(t.subrange(0, 2) =~= "=="@);
    }
    assert(op_list()[0].0 == "==="@ && op_list()[1] == ("=="@, 0int));
    assert(op_from(t, 1) == Some(("=="@, 0int)));
    assert(op_from(t, 0) == Some(("=="@, 0int)));
    assert(t.skip(2) =~= v);
    assert(clause_kind(t) == Some((0int, v)));
}

/// A `>=` clause bounds the version from below only: a range.
pub proof fn lemma_lower_bound(v: Seq<char>)
    requires
        is_version(v),
    ensures
        classify_spec(">="@ + v) == Some((PinView::Range(">="@ + v), Seq::<char>::empty())),
{
    reveal_strlit(">=");
    reveal_strlit("===");
    reveal_strlit("==");
    reveal_strlit("~=");
    reveal_strlit("!=");
    reveal_strlit("<=");
    let t = ">="@ + v;
    lemma_one_clause(">="@, v);
    assert(t[0] == '>');
    assert forall|w: Seq<char>| w.len() > 0 && w[0] != '>' implies !w.is_prefix_of(t) by {
        if w.is_prefix_of(t) {
            assert(t.subrange(0, w.len() as int)[0] == t[0]);
        }
    }
    assert(">="@.is_prefix_of(t)) by {
        assert(t.subrange(0, 2) =~= ">="@);
    }
    assert(op_list()[0].0 == "==="@ && op_list()[1].0 == "=="@ && op_list()[2].0 == "~="@);
    assert(op_list()[3].0 == "!="@ && op_list()[4].0 == "<="@ && op_list()[5] == (">="@, 2int));
    assert(op_from(t, 5) == Some((">="@, 2int)));
    assert(op_from(t, 4) == Some((">="@, 2int)));
    assert(op_from(t, 3) == Some((">="@, 2int)));
    assert(op_from(t, 2) == Some((">="@, 2int)));
    assert(op_from(t, 1) == Some((">="@, 2int)));
    assert(op_from(t, 0) == Some((">="@, 2int)));
    assert(t.skip(2) =~= v);
    assert(clause_kind(t) == Some((2int, v)));
}

/// A `!=` clause excludes one version and bounds nothing.
pub proof fn lemma_exclusion(v: Seq<char>)
    requires
        is_version(v),
    ensures
        classify_spec("!="@ + v) == Some((PinView::Unconstrained, Seq::<char>::empty())),
{
    reveal_strlit("===");
    reveal_strlit("==");
    reveal_strlit("~=");
    reveal_strlit("!=");
    let t = "!="@ + v;
    lemma_one_clause("!="@, v);
    assert(t[0] == '!');
    assert forall|w: Seq<char>| w.len() > 0 && w[0] != '!' implies !w.is_prefix_of(t) by {
        if w.is_prefix_of(t) {
            assert(t.subrange(0, w.len() as int)[0] == t[0]);
        }
    }
    assert("!="@.is_prefix_of(t)) by {
        assert(t.subrange(0, 2) =~= "!="@);
    }
    assert(op_list()[0].0 == "==="@ && op_list()[1].0 == "=="@ && op_list()[2].0 == "~="@);
    assert(op_list()[3] == ("!="@, 3int));
    assert(op_from(t, 3) == Some(("!="@, 3int)));
    assert(op_from(t, 2) == Some(("!="@, 3int)));
    assert(op_from(t, 1) == Some(("!="@, 3int)));
    assert(op_from(t, 0) == Some(("!="@, 3int)));
    assert(t.skip(2) =~= v);
    assert(clause_kind(t) == Some((3int, v)));
}

/// What one logical line amounts to.
pub enum Line {
    /// Blank, a comment, an option, or a location rather than a project.
    Skip,
    Found(PackageView),
    /// A syntax error: what is wrong, and the column it is reported at.
    Bad(Seq<char>, int),
}

pub open spec fn quoted(head: Seq<char>, tail: Seq<char>) -> Seq<char> {
    "`"@ + head + "`"@ + tail
}

/// What pip would make of one logical line.
pub open spec fn requirement_spec(logical: Seq<char>) -> Line {
    let body = strip_comment_spec(logical);
    let t = text::trim(body);
    let col = body.len() - text::trim_start(body).len() + 1;
    if t.len() == 0 || t[0] == '-' {
        Line::Skip
    } else {
        let (spec, _, hashed) = glue(words(t));
        let head = if text::find(spec, ';') >= 0 {
            spec.take(text::find(spec, ';'))
        } else {
            spec
        };
        let end = name_end(head, 0);
        let name = head.take(end);
        let rest = head.skip(end);
        if !(rest.len() > 0 && rest[0] == '@') && rest.contains('/') {
            Line::Skip
        } else if !(name.len() > 0 && text::is_alnum(name[0])) {
            Line::Bad(quoted(head, " does not begin with a package name"@), col)
        } else {
            let tail = rest.drop_first();
            let closes = text::find(tail, ']');
            if rest.len() > 0 && rest[0] == '[' && closes < 0 {
                Line::Bad(quoted(head, " has an unclosed `[` in its extras"@), col)
            } else {
                let rest2 = if rest.len() > 0 && rest[0] == '[' {
                    tail.skip(closes + 1)
                } else {
                    rest
                };
                match classify_spec(rest2) {
                    None => Line::Bad(
                        quoted(head, " is not a version specifier stranger understands"@),
                        col,
                    ),
                    Some((pinned, version)) => Line::Found(
                        PackageView {
                            name,
                            version,
                            key: name,
                            dev: false,
                            optional: false,
                            first_party: false,
                            install_script: false,
                            has_integrity: hashed,
                            pinned,
                            origin: if rest2.len() > 0 && rest2[0] == '@' {
                                Origin::Elsewhere
                            } else {
                                Origin::Registry
                            },
                        },
                    ),
                }
            }
        }
    }
}

/// Reading a file line by line: the logical line so far, the physical line it
/// started on, and the packages read.
pub struct PipState {
    pub buf: Seq<char>,
    pub opened: Option<int>,
    pub pkgs: Seq<PackageView>,
}

/// What one physical line, number `n`, does to the reading.
pub open spec fn pip_step(st: PipState, raw: Seq<char>, n: int) -> core::result::Result<
    PipState,
    (Seq<char>, int, int),
> {
    let start = match st.opened {
        Some(s) => s,
        None => n,
    };
    if raw.len() > 0 && raw.last() == '\\' {
        Ok(PipState { buf: st.buf + raw.drop_last(), opened: Some(start), pkgs: st.pkgs })
    } else {
        match requirement_spec(st.buf + raw) {
            Line::Bad(what, col) => Err((what, start, col)),
            Line::Skip => Ok(PipState { buf: seq![], opened: None, pkgs: st.pkgs }),
            Line::Found(p) => Ok(PipState { buf: seq![], opened: None, pkgs: st.pkgs.push(p) }),
        }
    }
}

/// Reading the first `lines.len()` lines.
pub open spec fn pip_run(lines: Seq<Seq<char>>) -> core::result::Result<
    PipState,
    (Seq<char>, int, int),
>
    decreases lines.len(),
{
    if lines.len() == 0 {
        Ok(PipState { buf: seq![], opened: None, pkgs: seq![] })
    } else {
        match pip_run(lines.drop_last()) {
            Err(e) => Err(e),
            Ok(st) => pip_step(st, lines.last(), lines.len() as int),
        }
    }
}

/// The packages of a whole file, or the first syntax error in it. A file
/// whose last line ends in a backslash still yields what accumulated.
pub open spec fn pip_read(src: Seq<char>) -> core::result::Result<
    Seq<PackageView>,
    (Seq<char>, int, int),
> {
    match pip_run(text::lines(src)) {
        Err(e) => Err(e),
        Ok(st) => match st.opened {
            None => Ok(st.pkgs),
            Some(start) => match requirement_spec(st.buf) {
                Line::Bad(what, col) => Err((what, start, col)),
                Line::Skip => Ok(st.pkgs),
                Line::Found(p) => Ok(st.pkgs.push(p)),
            },
        },
    }
}

fn words_glue(ws: &Vec<Vec<char>>) -> (r: (Vec<char>, bool))
    ensures
        r.0@ == glue(text::seqs(ws@)).0,
        r.1 == glue(text::seqs(ws@)).2,
{
    let dash = text::chars_of("-");
    let hash = text::chars_of("--hash");
    let mut spec: Vec<char> = Vec::new();
    let mut options = false;
    let mut hashed = false;
    for i in 0..ws.len()
        invariant
            dash@ == "-"@,
            hash@ == "--hash"@,
            (spec@, options, hashed) == glue(text::seqs(ws@).take(i as int)),
    {
        proof {
            let t = text::seqs(ws@).take(i + 1);
            assert(t.drop_last() =~= text::seqs(ws@).take(i as int));
            assert(t.last() == ws@[i as int]@);
        }
        options = options || text::starts_with(&ws[i], &dash);
        if options {
            hashed = hashed || text::starts_with(&ws[i], &hash);
        } else {
            let mut k: usize = 0;
            let ghost before = spec@;
            while k < ws[i].len()
                invariant
                    0 <= i < ws@.len(),
                    k <= ws@[i as int]@.len(),
                    spec@ == before + ws@[i as int]@.take(k as int),
                decreases ws@[i as int]@.len() - k,
            {
                spec.push(ws[i][k]);
                proof {
                    assert(ws@[i as int]@.take(k + 1) =~= ws@[i as int]@.take(k as int).push(
                        ws@[i as int]@[k as int],
                    ));
                }
                k = k + 1;
            }
            proof {
                assert(ws@[i as int]@.take(ws@[i as int]@.len() as int) =~= ws@[i as int]@);
            }
        }
    }
    proof {
        assert(text::seqs(ws@).take(ws@.len() as int) =~= text::seqs(ws@));
    }
    (spec, hashed)
}

fn end_of_name(s: &[char]) -> (e: usize)
    ensures
        e == name_end(s@, 0),
        e <= s@.len(),
{
    let mut i: usize = 0;
    while i < s.len() && (text::alnum(s[i]) || s[i] == '.' || s[i] == '_' || s[i] == '-')
        invariant
            i <= s@.len(),
            name_end(s@, 0) == name_end(s@, i as int),
        decreases s@.len() - i,
    {
        i = i + 1;
    }
    i
}

/// The first operator `clause` starts with, and how tightly it pins.
fn operator(clause: &[char]) -> (r: Option<(usize, u8)>)
    ensures
        match op_from(clause@, 0) {
            None => r is None,
            Some((op, kind)) => r matches Some((len, k)) && len == op.len() && k == kind,
        },
{
    let ops: [&str; 8] = ["===", "==", "~=", "!=", "<=", ">=", "<", ">"];
    let kinds: [u8; 8] = [0, 0, 1, 3, 2, 2, 2, 2];
    proof {
        reveal_strlit("===");
        reveal_strlit("==");
        reveal_strlit("~=");
        reveal_strlit("!=");
        reveal_strlit("<=");
        reveal_strlit(">=");
        reveal_strlit("<");
        reveal_strlit(">");
    }
    let mut k: usize = 0;
    while k < 8
        invariant
            k <= 8,
            forall|j: int| 0 <= j < 8 ==> (#[trigger] ops@[j])@ == op_list()[j].0,
            forall|j: int| 0 <= j < 8 ==> (#[trigger] kinds@[j]) == op_list()[j].1,
            op_from(clause@, 0) == op_from(clause@, k as int),
        decreases 8 - k,
    {
        let op = text::chars_of(ops[k]);
        if text::starts_with(clause, &op) {
            return Some((op.len(), kinds[k]));
        }
        k = k + 1;
    }
    None
}

fn versionish(v: &[char]) -> (r: bool)
    ensures
        r == is_version(v@),
{
    if v.len() == 0 {
        return false;
    }
    for i in 0..v.len()
        invariant
            forall|j: int| 0 <= j < i ==> version_char(#[trigger] v@[j]),
    {
        let c = v[i];
        if !(text::alnum(c) || c == '.' || c == '*' || c == '+' || c == '!' || c == '-' || c == '_') {
            return false;
        }
    }
    true
}

/// How a specifier pins the version; `None` when it is not a specifier.
fn classify(spec: &[char]) -> (r: Option<(Pin, String)>)
    ensures
        match classify_spec(spec@) {
            None => r is None,
            Some((p, v)) => r matches Some((q, w)) && q@ == p && w@ == v,
        },
{
    if spec.len() == 0 || spec[0] == '@' {
        return Some((Pin::Unconstrained, String::new()));
    }
    let clauses = text::split_at(spec, ',');
    let mut tightest: u8 = 3;
    let mut exact: Vec<char> = Vec::new();
    for i in 0..clauses.len()
        invariant
            classify_acc(text::seqs(clauses@).take(i as int)) == Some((tightest as int, exact@)),
            tightest <= 3,
            text::seqs(clauses@) == text::split(spec@, ','),
            spec@.len() > 0 && spec@[0] != '@',
    {
        let clause = &clauses[i];
        proof {
            let t = text::seqs(clauses@).take(i + 1);
            assert(t.drop_last() =~= text::seqs(clauses@).take(i as int));
            assert(t.last() == clause@);
        }
        let (len, kind) = match operator(clause) {
            Some(found) => found,
            None => {
                proof {
                    assert(clause_kind(clause@) is None);
                    assert(classify_acc(text::seqs(clauses@).take(i + 1)) is None);
                    lemma_acc_none(text::seqs(clauses@), i + 1);
                    assert(text::seqs(clauses@).take(clauses@.len() as int) =~= text::seqs(clauses@));
                }
                return None;
            },
        };
        proof {
            lemma_op_from_prefix(clause@, 0);
        }
        let value = text::slice(clause, len, clause.len());
        proof {
            assert(value@ =~= clause@.skip(len as int));
        }
        if !versionish(&value) {
            proof {
                assert(clause_kind(clause@) is None);
                assert(classify_acc(text::seqs(clauses@).take(i + 1)) is None);
                lemma_acc_none(text::seqs(clauses@), i + 1);
                assert(text::seqs(clauses@).take(clauses@.len() as int) =~= text::seqs(clauses@));
            }
            return None;
        }
        let kind = if kind == 0 && text::contains_char(&value, '*') {
            1
        } else {
            kind
        };
        if kind == 0 {
            exact = value;
        }
        if kind < tightest {
            tightest = kind;
        }
    }
    proof {
        assert(text::seqs(clauses@).take(clauses@.len() as int) =~= text::seqs(clauses@));
    }
    let s = text::string_of(spec);
    if tightest == 0 {
        Some((Pin::Exact, text::string_of(&exact)))
    } else if tightest == 1 {
        Some((Pin::Compatible(s), String::new()))
    } else if tightest == 2 {
        Some((Pin::Range(s), String::new()))
    } else {
        Some((Pin::Unconstrained, String::new()))
    }
}

proof fn lemma_op_from_prefix(clause: Seq<char>, k: int)
    ensures
        op_from(clause, k) matches Some((op, kind)) ==> op.is_prefix_of(clause),
    decreases 8 - k,
{
    if 0 <= k < 8 && !op_list()[k].0.is_prefix_of(clause) {
        lemma_op_from_prefix(clause, k + 1);
    }
}

/// Once a prefix of the clauses fails, the whole list does.
proof fn lemma_acc_none(clauses: Seq<Seq<char>>, k: int)
    requires
        0 <= k <= clauses.len(),
        classify_acc(clauses.take(k)) is None,
    ensures
        classify_acc(clauses.take(clauses.len() as int)) is None,
    decreases clauses.len() - k,
{
    if k < clauses.len() {
        assert(clauses.take(k + 1).drop_last() =~= clauses.take(k));
        lemma_acc_none(clauses, k + 1);
    }
}

/// `head` in backquotes, then `tail`.
fn quote(head: &[char], tail: &str) -> (s: String)
    ensures
        s@ == quoted(head@, tail@),
{
    let mut s = text::owned("`");
    text::append(&mut s, text::string_of(head).as_str());
    text::append(&mut s, "`");
    text::append(&mut s, tail);
    s
}

/// One logical line: a package, nothing, or what is wrong with it.
fn requirement(logical: &[char]) -> (r: (Option<Package>, Option<(String, u32)>))
    requires
        logical@.len() < u32::MAX,
    ensures
        match requirement_spec(logical@) {
            Line::Skip => r.0 is None && r.1 is None,
            Line::Found(p) => r.1 is None && (r.0 matches Some(q) && q@ == p),
            Line::Bad(what, col) => r.0 is None && (r.1 matches Some((w, c)) && w@ == what && c
                == col),
        },
{
    let body = strip_comment(logical);
    let t = text::trimmed(&body);
    proof {
        lemma_comment_from_bounds(logical@, 0);
        lemma_trim_start_len(body@);
    }
    let lead = leading(&body);
    let col = (lead as u32) + 1;
    if t.len() == 0 || t[0] == '-' {
        return (None, None);
    }
    let ws = split_words(&t);
    let (spec, hashed) = words_glue(&ws);
    let head = match text::find_char(&spec, ';') {
        Some(i) => text::slice(&spec, 0, i),
        None => text::slice(&spec, 0, spec.len()),
    };
    proof {
        assert(spec@.take(spec@.len() as int) =~= spec@);
        if text::find(spec@, ';') >= 0 {
            assert(spec@.subrange(0, text::find(spec@, ';')) =~= spec@.take(text::find(spec@, ';')));
        }
    }
    let end = end_of_name(&head);
    let name = text::slice(&head, 0, end);
    let rest = text::slice(&head, end, head.len());
    proof {
        assert(name@ =~= head@.take(end as int));
        assert(rest@ =~= head@.skip(end as int));
    }
    let at = rest.len() > 0 && rest[0] == '@';
    if !at && text::contains_char(&rest, '/') {
        return (None, None);
    }
    if !(name.len() > 0 && text::alnum(name[0])) {
        return (None, Some((quote(&head, " does not begin with a package name"), col)));
    }
    let rest2 = if rest.len() > 0 && rest[0] == '[' {
        let tail = text::slice(&rest, 1, rest.len());
        proof {
            assert(tail@ =~= rest@.drop_first());
        }
        match text::find_char(&tail, ']') {
            Some(i) => {
                proof {
                    assert(tail@.subrange(i + 1, tail@.len() as int) =~= tail@.skip(i + 1));
                }
                text::slice(&tail, i + 1, tail.len())
            },
            None => {
                return (None, Some((quote(&head, " has an unclosed `[` in its extras"), col)));
            },
        }
    } else {
        rest
    };
    match classify(&rest2) {
        None => (
            None,
            Some((quote(&head, " is not a version specifier stranger understands"), col)),
        ),
        Some((pinned, version)) => {
            let n = text::string_of(&name);
            let origin = if rest2.len() > 0 && rest2[0] == '@' {
                Origin::Elsewhere
            } else {
                Origin::Registry
            };
            let p = Package {
                name: n.clone(),
                version,
                key: n,
                dev: false,
                optional: false,
                first_party: false,
                install_script: false,
                has_integrity: hashed,
                pinned,
                origin,
            };
            (Some(p), None)
        },
    }
}

/// How many whitespace characters `s` starts with.
fn leading(s: &[char]) -> (n: usize)
    ensures
        n == s@.len() - text::trim_start(s@).len(),
        n <= s@.len(),
{
    let mut i: usize = 0;
    proof {
        assert(s@.skip(0) =~= s@);
    }
    while i < s.len() && text::space(s[i])
        invariant
            i <= s@.len(),
            text::trim_start(s@) == text::trim_start(s@.skip(i as int)),
        decreases s@.len() - i,
    {
        proof {
            assert(s@.skip(i as int).drop_first() =~= s@.skip(i + 1));
        }
        i = i + 1;
    }
    proof {
        assert(text::trim_start(s@.skip(i as int)) == s@.skip(i as int));
    }
    i
}

proof fn lemma_trim_start_len(s: Seq<char>)
    ensures
        text::trim_start(s).len() <= s.len(),
    decreases s.len(),
{
    if s.len() > 0 && text::is_space(s[0]) {
        lemma_trim_start_len(s.drop_first());
    }
}

proof fn lemma_total_take(ls: Seq<Seq<char>>, i: int)
    requires
        0 <= i < ls.len(),
    ensures
        text::total(ls.take(i + 1)) == text::total(ls.take(i)) + ls[i].len(),
        text::total(ls.take(i + 1)) <= text::total(ls),
    decreases ls.len() - i,
{
    assert(ls.take(i + 1).drop_last() =~= ls.take(i));
    if i + 1 < ls.len() {
        lemma_total_take(ls, i + 1);
    } else {
        assert(ls.take(i + 1) =~= ls);
    }
}

/// Once reading fails, it stays failed.
proof fn lemma_run_err(ls: Seq<Seq<char>>, k: int)
    requires
        0 <= k <= ls.len(),
        pip_run(ls.take(k)) is Err,
    ensures
        pip_run(ls) == pip_run(ls.take(k)),
    decreases ls.len() - k,
{
    if k < ls.len() {
        assert(ls.take(k + 1).drop_last() =~= ls.take(k));
        lemma_run_err(ls, k + 1);
    } else {
        assert(ls.take(k) =~= ls);
    }
}

/// What reading `src` as a requirements.txt at `path` gives.
pub open spec fn read_spec(path: Seq<char>, src: Seq<char>, r: Result<Tree>) -> bool {
    match pip_read(src) {
        Err((what, line, col)) => r matches Err(Error::Syntax { what: w, line: l, col: c }) && w@
            == what && l == line && c == col,
        Ok(pkgs) => r matches Ok(tree) && {
            &&& tree.ecosystem == Ecosystem::PyPi
            &&& tree.source@ == path
            &&& lock::package_views(tree.packages@) == pkgs
            &&& tree.edges@.len() == 0
            &&& tree.roots@ == lock::every_index(pkgs.len() as int)
            &&& !tree.records_edges
            &&& !tree.records_install_scripts
        },
    }
}

/// Read a requirements.txt.
pub fn read(path: &str, src: &str) -> (r: Result<Tree>)
    requires
        src@.len() < u32::MAX,
    ensures
        read_spec(path@, src@, r),
{
    let lines = text::lines_of(src);
    let ghost ls = lines@.map_values(|l: String| l@);
    proof {
        text::lemma_lines_len(src@);
        text::lemma_lines_total(src@);
    }
    let mut packages: Vec<Package> = Vec::new();
    let mut buf: Vec<char> = Vec::new();
    let mut opened: Option<u32> = None;
    for i in 0..lines.len()
        invariant
            ls == lines@.map_values(|l: String| l@),
            ls == text::lines(src@),
            ls.len() <= src@.len(),
            src@.len() < u32::MAX,
            text::total(ls) <= src@.len(),
            buf@.len() <= text::total(ls.take(i as int)),
            pip_run(ls.take(i as int)) matches Ok(st) && st.buf == buf@ && st.pkgs
                == lock::package_views(packages@) && match st.opened {
                None => opened is None,
                Some(s) => opened matches Some(o) && o == s,
            },
    {
        let n = (i as u32) + 1;
        let start = match opened {
            Some(s) => s,
            None => n,
        };
        let raw = text::chars_of(lines[i].as_str());
        proof {
            assert(ls.take(i + 1).drop_last() =~= ls.take(i as int));
            assert(ls.take(i + 1).last() == raw@);
            lemma_total_take(ls, i as int);
        }
        if raw.len() > 0 && raw[raw.len() - 1] == '\\' {
            let mut k: usize = 0;
            let ghost before = buf@;
            while k < raw.len() - 1
                invariant
                    k <= raw@.len() - 1,
                    raw@.len() > 0,
                    buf@ == before + raw@.take(k as int),
                decreases raw@.len() - 1 - k,
            {
                buf.push(raw[k]);
                proof {
                    assert(raw@.take(k + 1) =~= raw@.take(k as int).push(raw@[k as int]));
                }
                k = k + 1;
            }
            proof {
                assert(raw@.take(raw@.len() - 1) =~= raw@.drop_last());
            }
            opened = Some(start);
        } else {
            let ghost before = buf@;
            for k in 0..raw.len()
                invariant
                    buf@ == before + raw@.take(k as int),
            {
                buf.push(raw[k]);
                proof {
                    assert(raw@.take(k + 1) =~= raw@.take(k as int).push(raw@[k as int]));
                }
            }
            proof {
                assert(raw@.take(raw@.len() as int) =~= raw@);
            }
            let (found, bad) = requirement(&buf);
            match bad {
                Some((what, col)) => {
                    proof {
                        lemma_run_err(ls, i + 1);
                    }
                    return Err(Error::syntax(what.as_str(), start, col));
                },
                None => {},
            }
            match found {
                Some(p) => {
                    let ghost old_p = packages@;
                    packages.push(p);
                    proof {
                        assert(lock::package_views(packages@) =~= lock::package_views(old_p).push(p@));
                    }
                },
                None => {},
            }
            buf = Vec::new();
            opened = None;
        }
    }
    proof {
        assert(ls.take(ls.len() as int) =~= ls);
    }
    match opened {
        Some(start) => {
            let (found, bad) = requirement(&buf);
            match bad {
                Some((what, col)) => {
                    return Err(Error::syntax(what.as_str(), start, col));
                },
                None => {},
            }
            match found {
                Some(p) => {
                    let ghost old_p = packages@;
                    packages.push(p);
                    proof {
                        assert(lock::package_views(packages@) =~= lock::package_views(old_p).push(p@));
                    }
                },
                None => {},
            }
        },
        None => {},
    }
    let roots = lock::all_indices(packages.len());
    Ok(
        Tree {
            ecosystem: Ecosystem::PyPi,
            source: text::owned(path),
            packages,
            edges: Vec::new(),
            roots,
            records_edges: false,
            records_install_scripts: false,
        },
    )
}

} // verus!
