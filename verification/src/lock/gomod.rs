//! go.mod — what a module asks for, which is not quite what it gets.
//!
//! Like `requirements.txt` this is a manifest rather than a resolver's answer,
//! and like `requirements.txt` people commit it and treat it as a lockfile.
//! Unlike it, they are mostly right to: under minimal version selection a tidy
//! go.mod (Go 1.17 and later) lists the whole build list.
//!
//! There are no edges in this format. A go.mod says *that* a module is needed
//! transitively and never *through what*, so `edges` is empty and the one
//! thing the format does give — the direct/indirect split — lands in `roots`.
//!
//! Every directive the go command writes is recognised; anything else is a
//! syntax error rather than a line to skip, because a reader that silently
//! ignores what it has not heard of will one day ignore a misspelt `require`.
//! The directives that carry no module path are read and dropped, so a
//! `retract` block's bare versions never turn into packages.
use crate::error::{Error, Result};
use crate::lock::{self, Ecosystem, Origin, Package, PackageView, Pin, PinView, Tree};
use crate::text;
use vstd::prelude::*;

verus! {

/// Every directive the go command writes.
pub open spec fn directives() -> Seq<Seq<char>> {
    seq![
        "module"@,
        "go"@,
        "toolchain"@,
        "require"@,
        "exclude"@,
        "replace"@,
        "retract"@,
        "godebug"@,
        "tool"@,
        "ignore"@,
    ]
}

/// The tokens finished so far, each with the column it starts at, and the one
/// in progress.
pub open spec fn tokens_acc(s: Seq<char>) -> (Seq<(Seq<char>, int)>, Option<(Seq<char>, int)>)
    decreases s.len(),
{
    if s.len() == 0 {
        (seq![], None)
    } else {
        let (done, cur) = tokens_acc(s.drop_last());
        let c = s.last();
        if text::is_space(c) {
            match cur {
                Some(t) => (done.push(t), None),
                None => (done, None),
            }
        } else {
            match cur {
                Some((t, col)) => (done, Some((t.push(c), col))),
                None => (done, Some((seq![c], s.len() as int))),
            }
        }
    }
}

/// Whitespace-separated tokens with the 1-based column each starts at,
/// counted in characters.
pub open spec fn tokens_spec(s: Seq<char>) -> Seq<(Seq<char>, int)> {
    let (done, cur) = tokens_acc(s);
    match cur {
        Some(t) => done.push(t),
        None => done,
    }
}

/// Where the first `//` starts, or -1.
pub open spec fn comment_start(s: Seq<char>, from: int) -> int
    decreases s.len() - from,
{
    if from < 0 || from + 1 >= s.len() {
        -1
    } else if s[from] == '/' && s[from + 1] == '/' {
        from
    } else {
        comment_start(s, from + 1)
    }
}

/// `go mod tidy` writes `// indirect`, or `// indirect; …` when the line
/// already carried a comment.
pub open spec fn is_indirect(note: Seq<char>) -> bool {
    note == "indirect"@ || "indirect;"@.is_prefix_of(note)
}

pub open spec fn numeric(p: Seq<char>) -> bool {
    p.len() > 0 && forall|i: int| 0 <= i < p.len() ==> text::is_digit(#[trigger] p[i])
}

pub open spec fn suffix_char(c: char) -> bool {
    text::is_alnum(c) || c == '.' || c == '-' || c == '+' || c == '_'
}

/// Where the first `-` or `+` is, or the length.
pub open spec fn core_end(s: Seq<char>, from: int) -> int
    decreases s.len() - from,
{
    if from < 0 || from >= s.len() {
        s.len() as int
    } else if s[from] == '-' || s[from] == '+' {
        from
    } else {
        core_end(s, from + 1)
    }
}

/// A module version: `v`, three numeric components, and after the first `-`
/// or `+` whatever a pseudo-version or `+incompatible` needs.
pub open spec fn is_module_version(v: Seq<char>) -> bool {
    let rest = v.drop_first();
    let end = core_end(rest, 0);
    let parts = text::split(rest.take(end), '.');
    &&& v.len() > 0
    &&& v[0] == 'v'
    &&& parts.len() == 3
    &&& numeric(parts[0])
    &&& numeric(parts[1])
    &&& numeric(parts[2])
    &&& forall|i: int| end <= i < rest.len() ==> suffix_char(#[trigger] rest[i])
}

/// A `require` line: path, version, and whether it is marked indirect.
pub struct RequireView {
    pub path: Seq<char>,
    pub version: Seq<char>,
    pub indirect: bool,
}

/// What a go.mod has said so far.
pub struct GoState {
    pub module: Option<Seq<char>>,
    pub requires: Seq<RequireView>,
    /// `replace` directives in the order they came; the last for a path wins.
    pub replaced: Seq<(Seq<char>, Seq<char>)>,
    /// The directive whose block is open, where its keyword is.
    pub open: Option<(Seq<char>, int, int)>,
}

pub enum GoError {
    Syntax(Seq<char>, int, int),
    Usage(Seq<char>),
}

/// The first token at or after `k` that starts with a quote, or -1.
pub open spec fn quoted_from(toks: Seq<(Seq<char>, int)>, k: int) -> int
    decreases toks.len() - k,
{
    if k < 0 || k >= toks.len() {
        -1
    } else if toks[k].0.len() > 0 && (toks[k].0[0] == '"' || toks[k].0[0] == '`') {
        k
    } else {
        quoted_from(toks, k + 1)
    }
}

/// The first `=>` token at or after `k`, or -1.
pub open spec fn arrow_from(toks: Seq<(Seq<char>, int)>, k: int) -> int
    decreases toks.len() - k,
{
    if k < 0 || k >= toks.len() {
        -1
    } else if toks[k].0 == "=>"@ {
        k
    } else {
        arrow_from(toks, k + 1)
    }
}

pub open spec fn bq(s: Seq<char>) -> Seq<char> {
    "`"@ + s + "`"@
}

/// One directive, or one line of a directive's block.
pub open spec fn entry_spec(
    st: GoState,
    kind: Seq<char>,
    args: Seq<(Seq<char>, int)>,
    note: Seq<char>,
    line: int,
    col: int,
) -> core::result::Result<GoState, GoError> {
    if kind == "module"@ {
        if args.len() != 1 {
            Err(GoError::Syntax("`module` takes one module path"@, line, col))
        } else {
            Ok(GoState { module: Some(args[0].0), ..st })
        }
    } else if kind == "require"@ || kind == "exclude"@ {
        if args.len() != 2 {
            Err(GoError::Syntax(bq(kind) + " takes a module path and a version"@, line, col))
        } else if !is_module_version(args[1].0) {
            Err(GoError::Syntax(bq(args[1].0) + " is not a module version"@, line, args[1].1))
        } else if kind == "require"@ {
            Ok(
                GoState {
                    requires: st.requires.push(
                        RequireView {
                            path: args[0].0,
                            version: args[1].0,
                            indirect: is_indirect(note),
                        },
                    ),
                    ..st
                },
            )
        } else {
            Ok(st)
        }
    } else if kind == "replace"@ {
        let arrow = arrow_from(args, 0);
        if arrow < 0 {
            Err(GoError::Syntax("`replace` needs a `=>`"@, line, col))
        } else if arrow == 0 || args.len() - arrow < 2 {
            Err(GoError::Syntax("`replace` needs a module path on each side of the `=>`"@, line, col))
        } else {
            Ok(GoState { replaced: st.replaced.push((args[0].0, args[arrow + 1].0)), ..st })
        }
    } else {
        Ok(st)
    }
}

/// What line `n` does to the reading.
pub open spec fn go_step(st: GoState, raw: Seq<char>, n: int) -> core::result::Result<GoState, GoError> {
    let at = comment_start(raw, 0);
    let body = if at >= 0 {
        raw.take(at)
    } else {
        raw
    };
    let note = if at >= 0 {
        text::trim(raw.skip(at + 2))
    } else {
        seq![]
    };
    let toks = tokens_spec(body);
    let q = quoted_from(toks, 0);
    if toks.len() == 0 {
        Ok(st)
    } else if q >= 0 {
        Err(
            GoError::Syntax(
                bq(toks[q].0) + " is a quoted path and stranger does not read those"@,
                n,
                toks[q].1,
            ),
        )
    } else {
        let first = toks[0].0;
        let col = toks[0].1;
        match st.open {
            Some((kind, _, _)) => if first == ")"@ {
                if toks.len() > 1 {
                    Err(GoError::Syntax("`)` closes the block and takes nothing after it"@, n, toks[1].1))
                } else {
                    Ok(GoState { open: None, ..st })
                }
            } else {
                entry_spec(st, kind, toks, note, n, col)
            },
            None => if !directives().contains(first) {
                Err(GoError::Syntax(bq(first) + " is not a go.mod directive"@, n, col))
            } else if toks.len() > 1 && toks[1].0 == "("@ {
                if toks.len() > 2 {
                    Err(
                        GoError::Syntax(
                            bq(first + " ("@) + " opens a block; its entries go on the lines below"@,
                            n,
                            toks[2].1,
                        ),
                    )
                } else {
                    Ok(GoState { open: Some((first, n, col)), ..st })
                }
            } else {
                entry_spec(st, first, toks.skip(1), note, n, col)
            },
        }
    }
}

pub open spec fn go_run(lines: Seq<Seq<char>>) -> core::result::Result<GoState, GoError>
    decreases lines.len(),
{
    if lines.len() == 0 {
        Ok(GoState { module: None, requires: seq![], replaced: seq![], open: None })
    } else {
        match go_run(lines.drop_last()) {
            Err(e) => Err(e),
            Ok(st) => go_step(st, lines.last(), lines.len() as int),
        }
    }
}

/// The replacement the last `replace` of `path` names.
pub open spec fn replacement(replaced: Seq<(Seq<char>, Seq<char>)>, path: Seq<char>) -> Option<
    Seq<char>,
>
    decreases replaced.len(),
{
    if replaced.len() == 0 {
        None
    } else if replaced.last().0 == path {
        Some(replaced.last().1)
    } else {
        replacement(replaced.drop_last(), path)
    }
}

/// The package a `require` becomes. A replacement pointing at a directory is
/// first-party code; any replacement is not the registry.
pub open spec fn require_package(r: RequireView, replaced: Seq<(Seq<char>, Seq<char>)>) -> PackageView {
    let rep = replacement(replaced, r.path);
    PackageView {
        name: r.path,
        version: r.version,
        key: r.path,
        dev: false,
        optional: false,
        first_party: rep matches Some(to) && to.len() > 0 && (to[0] == '.' || to[0] == '/'),
        install_script: false,
        has_integrity: false,
        pinned: PinView::Exact,
        origin: if rep is Some {
            Origin::Elsewhere
        } else {
            Origin::Registry
        },
    }
}

/// The indices, in order, of the requires below `n` that are direct and not
/// first-party.
pub open spec fn direct_roots(st: GoState, n: int) -> Seq<usize>
    decreases n,
{
    if n <= 0 {
        seq![]
    } else {
        let rest = direct_roots(st, n - 1);
        let r = st.requires[n - 1];
        if !r.indirect && !require_package(r, st.replaced).first_party {
            rest.push((n - 1) as usize)
        } else {
            rest
        }
    }
}

/// The whole file: every require as a package, and the roots, or what is
/// wrong with it.
pub open spec fn go_read(path: Seq<char>, src: Seq<char>) -> core::result::Result<GoState, GoError> {
    match go_run(text::lines(src)) {
        Err(e) => Err(e),
        Ok(st) => match st.open {
            Some((kind, line, col)) => Err(GoError::Syntax(bq(kind + " ("@) + " is never closed"@, line, col)),
            None => if st.module is None {
                Err(
                    GoError::Usage(
                        path + ": no `module` directive; this does not look like a go.mod"@,
                    ),
                )
            } else {
                Ok(st)
            },
        },
    }
}

pub open spec fn tok_views(t: Seq<(Vec<char>, u32)>) -> Seq<(Seq<char>, int)> {
    t.map_values(|x: (Vec<char>, u32)| (x.0@, x.1 as int))
}

fn tokens(line: &[char]) -> (out: Vec<(Vec<char>, u32)>)
    requires
        line@.len() < u32::MAX,
    ensures
        tok_views(out@) == tokens_spec(line@),
{
    let mut done: Vec<(Vec<char>, u32)> = Vec::new();
    let mut cur: Vec<char> = Vec::new();
    let mut start: u32 = 0;
    let mut open = false;
    for i in 0..line.len()
        invariant
            line@.len() < u32::MAX,
            tokens_acc(line@.take(i as int)) == (
                tok_views(done@),
                if open {
                    Some((cur@, start as int))
                } else {
                    None
                },
            ),
    {
        proof {
            assert(line@.take(i + 1).drop_last() =~= line@.take(i as int));
            assert(line@.take(i + 1).last() == line@[i as int]);
        }
        if text::space(line[i]) {
            if open {
                let ghost old_done = done@;
                let piece = (cur, start);
                done.push(piece);
                cur = Vec::new();
                open = false;
                proof {
                    assert(tok_views(done@) =~= tok_views(old_done).push((piece.0@, piece.1 as int)));
                }
            }
        } else {
            if open {
                cur.push(line[i]);
            } else {
                cur = Vec::new();
                cur.push(line[i]);
                start = (i as u32) + 1;
                open = true;
                proof {
                    assert(cur@ =~= seq![line@[i as int]]);
                }
            }
        }
    }
    proof {
        assert(line@.take(line@.len() as int) =~= line@);
    }
    if open {
        let ghost old_done = done@;
        let piece = (cur, start);
        done.push(piece);
        proof {
            assert(tok_views(done@) =~= tok_views(old_done).push((piece.0@, piece.1 as int)));
        }
    }
    done
}

fn comment_at(s: &[char]) -> (r: Option<usize>)
    ensures
        match r {
            Some(i) => i == comment_start(s@, 0) && i + 2 <= s@.len(),
            None => comment_start(s@, 0) == -1,
        },
{
    let mut i: usize = 0;
    while i < s.len() && s.len() - i > 1
        invariant
            i <= s@.len(),
            comment_start(s@, 0) == comment_start(s@, i as int),
        decreases s@.len() - i,
    {
        if s[i] == '/' && s[i + 1] == '/' {
            return Some(i);
        }
        i = i + 1;
    }
    None
}

fn indirect(note: &[char]) -> (r: bool)
    ensures
        r == is_indirect(note@),
{
    let word = text::chars_of("indirect");
    let semi = text::chars_of("indirect;");
    text::same_chars(note, &word) || text::starts_with(note, &semi)
}

fn all_numeric(p: &[char]) -> (r: bool)
    ensures
        r == numeric(p@),
{
    if p.len() == 0 {
        return false;
    }
    for i in 0..p.len()
        invariant
            forall|j: int| 0 <= j < i ==> text::is_digit(#[trigger] p@[j]),
    {
        if !text::digit(p[i]) {
            return false;
        }
    }
    true
}

fn module_version(v: &[char]) -> (r: bool)
    ensures
        r == is_module_version(v@),
{
    if v.len() == 0 || v[0] != 'v' {
        return false;
    }
    let rest = text::slice(v, 1, v.len());
    proof {
        assert(rest@ =~= v@.drop_first());
    }
    let mut end: usize = 0;
    while end < rest.len() && rest[end] != '-' && rest[end] != '+'
        invariant
            end <= rest@.len(),
            core_end(rest@, 0) == core_end(rest@, end as int),
        decreases rest@.len() - end,
    {
        end = end + 1;
    }
    let core = text::slice(&rest, 0, end);
    proof {
        assert(core@ =~= rest@.take(end as int));
    }
    let parts = text::split_at(&core, '.');
    if parts.len() != 3 {
        return false;
    }
    proof {
        assert(text::seqs(parts@)[0] == parts@[0]@);
        assert(text::seqs(parts@)[1] == parts@[1]@);
        assert(text::seqs(parts@)[2] == parts@[2]@);
    }
    if !(all_numeric(&parts[0]) && all_numeric(&parts[1]) && all_numeric(&parts[2])) {
        return false;
    }
    proof {
        assert(end as int == core_end(rest@, 0));
    }
    let mut i = end;
    while i < rest.len()
        invariant
            end <= i <= rest@.len(),
            end as int == core_end(rest@, 0),
            rest@ == v@.drop_first(),
            forall|j: int| end <= j < i ==> suffix_char(#[trigger] rest@[j]),
        decreases rest@.len() - i,
    {
        let c = rest[i];
        if !(text::alnum(c) || c == '.' || c == '-' || c == '+' || c == '_') {
            proof {
                assert(!suffix_char(rest@[i as int]));
            }
            return false;
        }
        i = i + 1;
    }
    true
}

fn same_as(t: &[char], word: &str) -> (r: bool)
    ensures
        r == (t@ == word@),
{
    let w = text::chars_of(word);
    text::same_chars(t, &w)
}

fn is_directive(t: &[char]) -> (r: bool)
    ensures
        r == directives().contains(t@),
{
    let list: [&str; 10] = [
        "module",
        "go",
        "toolchain",
        "require",
        "exclude",
        "replace",
        "retract",
        "godebug",
        "tool",
        "ignore",
    ];
    let ghost d = directives();
    proof {
        assert(d.len() == 10);
    }
    for k in 0..10
        invariant
            d == directives(),
            forall|j: int| 0 <= j < 10 ==> (#[trigger] list@[j])@ == d[j],
            forall|j: int| 0 <= j < k ==> d[j] != t@,
    {
        if same_as(t, list[k]) {
            proof {
                assert(d[k as int] == t@);
            }
            return true;
        }
    }
    false
}

/// The exec side of `GoState`.
struct Doc {
    module: Option<Vec<char>>,
    requires: Vec<(Vec<char>, Vec<char>, bool)>,
    replaced: Vec<(Vec<char>, Vec<char>)>,
}

spec fn doc_matches(doc: &Doc, open: Option<(Vec<char>, u32, u32)>, st: GoState) -> bool {
    &&& doc_fits(doc, st)
    &&& match open {
        Some((k, l, c)) => st.open == Some((k@, l as int, c as int)),
        None => st.open is None,
    }
}

spec fn doc_fits(doc: &Doc, st: GoState) -> bool {
    &&& match doc.module {
        Some(m) => st.module == Some(m@),
        None => st.module is None,
    }
    &&& doc.requires@.map_values(
        |r: (Vec<char>, Vec<char>, bool)| RequireView { path: r.0@, version: r.1@, indirect: r.2 },
    ) == st.requires
    &&& doc.replaced@.map_values(|r: (Vec<char>, Vec<char>)| (r.0@, r.1@)) == st.replaced
}

fn backquoted(s: &[char], tail: &str) -> (r: String)
    ensures
        r@ == bq(s@) + tail@,
{
    let mut r = text::owned("`");
    text::append(&mut r, text::string_of(s).as_str());
    text::append(&mut r, "`");
    text::append(&mut r, tail);
    r
}

fn copy(s: &[char]) -> (r: Vec<char>)
    ensures
        r@ == s@,
{
    proof {
        assert(s@.subrange(0, s@.len() as int) =~= s@);
    }
    text::slice(s, 0, s.len())
}

/// One directive, or one line of a directive's block, applied to `doc`.
fn entry(
    doc: &mut Doc,
    kind: &[char],
    args: &[(Vec<char>, u32)],
    note: &[char],
    line: u32,
    col: u32,
) -> (r: Result<()>)
    ensures
        forall|st: GoState|
            doc_fits(old(doc), st) ==> match entry_spec(
                st,
                kind@,
                tok_views(args@),
                note@,
                line as int,
                col as int,
            ) {
                Ok(next) => r is Ok && doc_fits(final(doc), next),
                Err(GoError::Syntax(w, l, c)) => r matches Err(Error::Syntax { what, line: el, col: ec })
                    && what@ == w && el == l && ec == c,
                Err(GoError::Usage(_)) => false,
            },
{
    let ghost before = *doc;
    let ghost av = tok_views(args@);
    proof {
        assert(av.len() == args@.len());
        if args@.len() > 0 {
            assert(av[0] == (args@[0].0@, args@[0].1 as int));
        }
        if args@.len() > 1 {
            assert(av[1] == (args@[1].0@, args@[1].1 as int));
        }
    }
    if same_as(kind, "module") {
        if args.len() != 1 {
            return Err(Error::syntax("`module` takes one module path", line, col));
        }
        doc.module = Some(copy(&args[0].0));
        return Ok(());
    }
    if same_as(kind, "require") || same_as(kind, "exclude") {
        if args.len() != 2 {
            let what = backquoted(kind, " takes a module path and a version");
            return Err(Error::syntax(what.as_str(), line, col));
        }
        if !module_version(&args[1].0) {
            let what = backquoted(&args[1].0, " is not a module version");
            return Err(Error::syntax(what.as_str(), line, args[1].1));
        }
        if same_as(kind, "require") {
            let r = (copy(&args[0].0), copy(&args[1].0), indirect(note));
            let ghost old_r = doc.requires@;
            doc.requires.push(r);
            proof {
                assert(doc.requires@.map_values(
                    |r: (Vec<char>, Vec<char>, bool)|
                        RequireView { path: r.0@, version: r.1@, indirect: r.2 },
                ) =~= old_r.map_values(
                    |r: (Vec<char>, Vec<char>, bool)|
                        RequireView { path: r.0@, version: r.1@, indirect: r.2 },
                ).push(RequireView { path: r.0@, version: r.1@, indirect: r.2 }));
            }
        }
        return Ok(());
    }
    if same_as(kind, "replace") {
        let mut arrow: usize = 0;
        while arrow < args.len() && !same_as(&args[arrow].0, "=>")
            invariant
                arrow <= args@.len(),
                av == tok_views(args@),
                arrow_from(av, 0) == arrow_from(av, arrow as int),
            decreases args@.len() - arrow,
        {
            proof {
                assert(av[arrow as int] == (args@[arrow as int].0@, args@[arrow as int].1 as int));
            }
            arrow = arrow + 1;
        }
        if arrow >= args.len() {
            return Err(Error::syntax("`replace` needs a `=>`", line, col));
        }
        proof {
            assert(av[arrow as int] == (args@[arrow as int].0@, args@[arrow as int].1 as int));
        }
        if arrow == 0 || args.len() - arrow < 2 {
            return Err(
                Error::syntax("`replace` needs a module path on each side of the `=>`", line, col),
            );
        }
        proof {
            assert(av[arrow + 1] == (args@[arrow + 1].0@, args@[arrow + 1].1 as int));
        }
        let pair = (copy(&args[0].0), copy(&args[arrow + 1].0));
        let ghost old_r = doc.replaced@;
        doc.replaced.push(pair);
        proof {
            assert(doc.replaced@.map_values(|r: (Vec<char>, Vec<char>)| (r.0@, r.1@)) =~= old_r.map_values(
                |r: (Vec<char>, Vec<char>)| (r.0@, r.1@),
            ).push((pair.0@, pair.1@)));
        }
        return Ok(());
    }
    Ok(())
}

fn replacement_of(replaced: &Vec<(Vec<char>, Vec<char>)>, path: &[char]) -> (r: Option<Vec<char>>)
    ensures
        match replacement(replaced@.map_values(|x: (Vec<char>, Vec<char>)| (x.0@, x.1@)), path@) {
            Some(to) => r matches Some(v) && v@ == to,
            None => r is None,
        },
{
    let ghost all = replaced@.map_values(|x: (Vec<char>, Vec<char>)| (x.0@, x.1@));
    let mut k = replaced.len();
    proof {
        assert(all.take(k as int) =~= all);
    }
    while k > 0
        invariant
            k <= replaced@.len(),
            all == replaced@.map_values(|x: (Vec<char>, Vec<char>)| (x.0@, x.1@)),
            replacement(all, path@) == replacement(all.take(k as int), path@),
        decreases k,
    {
        proof {
            assert(all.take(k as int).drop_last() =~= all.take(k - 1));
            assert(all.take(k as int).last() == (replaced@[k - 1].0@, replaced@[k - 1].1@));
        }
        if text::same_chars(&replaced[k - 1].0, path) {
            return Some(copy(&replaced[k - 1].1));
        }
        k = k - 1;
    }
    None
}

/// Reading stays failed once it has failed.
proof fn lemma_run_err(ls: Seq<Seq<char>>, k: int)
    requires
        0 <= k <= ls.len(),
        go_run(ls.take(k)) is Err,
    ensures
        go_run(ls) == go_run(ls.take(k)),
    decreases ls.len() - k,
{
    if k < ls.len() {
        assert(ls.take(k + 1).drop_last() =~= ls.take(k));
        lemma_run_err(ls, k + 1);
    } else {
        assert(ls.take(k) =~= ls);
    }
}

/// The packages and roots a finished reading gives.
fn packages_of(doc: &Doc, Ghost(st): Ghost<GoState>) -> (r: (Vec<Package>, Vec<usize>))
    requires
        doc_fits(doc, st),
    ensures
        lock::package_views(r.0@) == st.requires.map_values(
            |q: RequireView| require_package(q, st.replaced),
        ),
        r.1@ == direct_roots(st, st.requires.len() as int),
{
    let mut packages: Vec<Package> = Vec::new();
    let mut roots: Vec<usize> = Vec::new();
    let ghost want = st.requires.map_values(|q: RequireView| require_package(q, st.replaced));
    for j in 0..doc.requires.len()
        invariant
            doc_fits(doc, st),
            want == st.requires.map_values(|q: RequireView| require_package(q, st.replaced)),
            lock::package_views(packages@) == want.take(j as int),
            roots@ == direct_roots(st, j as int),
    {
        let req = &doc.requires[j];
        proof {
            assert(st.requires[j as int] == RequireView { path: req.0@, version: req.1@, indirect: req.2 });
        }
        let rep = replacement_of(&doc.replaced, &req.0);
        let local = match &rep {
            Some(to) => to.len() > 0 && (to[0] == '.' || to[0] == '/'),
            None => false,
        };
        let origin = match &rep {
            Some(_) => Origin::Elsewhere,
            None => Origin::Registry,
        };
        let name = text::string_of(&req.0);
        let p = Package {
            name: name.clone(),
            version: text::string_of(&req.1),
            key: name,
            dev: false,
            optional: false,
            first_party: local,
            install_script: false,
            has_integrity: false,
            pinned: Pin::Exact,
            origin,
        };
        proof {
            assert(p@ == require_package(st.requires[j as int], st.replaced));
        }
        let ghost old_p = packages@;
        packages.push(p);
        proof {
            assert(lock::package_views(packages@) =~= lock::package_views(old_p).push(p@));
            assert(want.take(j + 1) =~= want.take(j as int).push(want[j as int]));
        }
        if !req.2 && !local {
            roots.push(j);
        }
    }
    proof {
        assert(want.take(doc.requires@.len() as int) =~= want);
    }
    (packages, roots)
}

/// What one line, number `n`, does to the reading.
fn step(
    doc: &mut Doc,
    open: &mut Option<(Vec<char>, u32, u32)>,
    raw: &[char],
    n: u32,
    Ghost(st): Ghost<GoState>,
) -> (r: Result<()>)
    requires
        raw@.len() < u32::MAX,
        doc_matches(old(doc), *old(open), st),
    ensures
        match go_step(st, raw@, n as int) {
            Ok(next) => r is Ok && doc_matches(final(doc), *final(open), next),
            Err(GoError::Syntax(w, l, c)) => r matches Err(Error::Syntax { what, line, col })
                && what@ == w && line == l && col == c,
            Err(GoError::Usage(_)) => false,
        },
{
    let (body, note) = match comment_at(raw) {
        Some(at) => {
            let b = text::slice(raw, 0, at);
            let nt = text::trimmed(&text::slice(raw, at + 2, raw.len()));
            proof {
                assert(b@ =~= raw@.take(at as int));
                assert(raw@.subrange(at + 2, raw@.len() as int) =~= raw@.skip(at + 2));
            }
            (b, nt)
        },
        None => (copy(raw), Vec::new()),
    };
    let mut toks = tokens(&body);
    let ghost tv = tok_views(toks@);
    proof {
        assert(tv.len() == toks@.len());
    }
    if toks.len() == 0 {
        return Ok(());
    }
    let mut q: usize = 0;
    while q < toks.len() && !(toks[q].0.len() > 0 && (toks[q].0[0] == '"' || toks[q].0[0] == '`'))
        invariant
            q <= toks@.len(),
            tv == tok_views(toks@),
            quoted_from(tv, 0) == quoted_from(tv, q as int),
        decreases toks@.len() - q,
    {
        proof {
            assert(tv[q as int] == (toks@[q as int].0@, toks@[q as int].1 as int));
        }
        q = q + 1;
    }
    if q < toks.len() {
        proof {
            assert(tv[q as int] == (toks@[q as int].0@, toks@[q as int].1 as int));
        }
        let what = backquoted(&toks[q].0, " is a quoted path and stranger does not read those");
        return Err(Error::syntax(what.as_str(), n, toks[q].1));
    }
    proof {
        assert(tv[0] == (toks@[0].0@, toks@[0].1 as int));
        if toks@.len() > 1 {
            assert(tv[1] == (toks@[1].0@, toks@[1].1 as int));
        }
        if toks@.len() > 2 {
            assert(tv[2] == (toks@[2].0@, toks@[2].1 as int));
        }
    }
    let col = toks[0].1;
    let in_block = open.is_some();
    if in_block {
        let closes = same_as(&toks[0].0, ")");
        if closes {
            if toks.len() > 1 {
                return Err(
                    Error::syntax("`)` closes the block and takes nothing after it", n, toks[1].1),
                );
            }
            *open = None;
            Ok(())
        } else {
            let kind = match &*open {
                Some((k, _, _)) => copy(k),
                None => Vec::new(),
            };
            entry(doc, &kind, &toks, &note, n, col)
        }
    } else {
        if !is_directive(&toks[0].0) {
            let what = backquoted(&toks[0].0, " is not a go.mod directive");
            return Err(Error::syntax(what.as_str(), n, col));
        }
        if toks.len() > 1 && same_as(&toks[1].0, "(") {
            if toks.len() > 2 {
                let mut head = copy(&toks[0].0);
                head.push(' ');
                head.push('(');
                proof {
                    reveal_strlit(" (");
                    assert(head@ =~= toks@[0].0@ + " ("@);
                }
                let what = backquoted(&head, " opens a block; its entries go on the lines below");
                return Err(Error::syntax(what.as_str(), n, toks[2].1));
            }
            *open = Some((copy(&toks[0].0), n, col));
            Ok(())
        } else {
            let (first, _) = toks.remove(0);
            proof {
                assert(tok_views(toks@) =~= tv.skip(1));
            }
            entry(doc, &first, &toks, &note, n, col)
        }
    }
}

/// What reading `src` as a go.mod at `path` gives.
pub open spec fn read_spec(path: Seq<char>, src: Seq<char>, r: Result<Tree>) -> bool {
    match go_read(path, src) {
        Err(GoError::Syntax(w, l, c)) => r matches Err(Error::Syntax { what, line, col }) && what@
            == w && line == l && col == c,
        Err(GoError::Usage(m)) => r matches Err(Error::Usage(msg)) && msg@ == m,
        Ok(st) => r matches Ok(tree) && {
            &&& tree.ecosystem == Ecosystem::Go
            &&& tree.source@ == path
            &&& lock::package_views(tree.packages@) == st.requires.map_values(
                |q: RequireView| require_package(q, st.replaced),
            )
            &&& tree.edges@.len() == 0
            &&& tree.roots@ == direct_roots(st, st.requires.len() as int)
            &&& !tree.records_edges
            &&& !tree.records_install_scripts
        },
    }
}

/// Read a go.mod.
pub fn read(path: &str, src: &str) -> (r: Result<Tree>)
    requires
        src@.len() < u32::MAX,
    ensures
        read_spec(path@, src@, r),
{
    let lines = text::lines_of(src);
    let ghost ls = lines@.map_values(|l: String| l@);
    proof {
        text::lemma_lines_len(src@);
        text::lemma_lines_total(src@);
    }
    let mut doc = Doc { module: None, requires: Vec::new(), replaced: Vec::new() };
    let mut open: Option<(Vec<char>, u32, u32)> = None;
    proof {
        assert(doc.requires@.map_values(
            |r: (Vec<char>, Vec<char>, bool)| RequireView { path: r.0@, version: r.1@, indirect: r.2 },
        ) =~= Seq::<RequireView>::empty());
        assert(doc.replaced@.map_values(|r: (Vec<char>, Vec<char>)| (r.0@, r.1@)) =~= Seq::<
            (Seq<char>, Seq<char>),
        >::empty());
    }
    for i in 0..lines.len()
        invariant
            ls == lines@.map_values(|l: String| l@),
            ls == text::lines(src@),
            ls.len() <= src@.len(),
            src@.len() < u32::MAX,
            text::total(ls) <= src@.len(),
            go_run(ls.take(i as int)) matches Ok(st) && doc_matches(&doc, open, st),
    {
        let n = (i as u32) + 1;
        let raw = text::chars_of(lines[i].as_str());
        let ghost st = go_run(ls.take(i as int))->Ok_0;
        proof {
            assert(ls.take(i + 1).drop_last() =~= ls.take(i as int));
            assert(ls.take(i + 1).last() == raw@);
            lemma_total_take(ls, i as int);
        }
        match step(&mut doc, &mut open, &raw, n, Ghost(st)) {
            Ok(()) => {},
            Err(e) => {
                proof {
                    lemma_run_err(ls, i + 1);
                }
                return Err(e);
            },
        }
    }
    proof {
        assert(ls.take(ls.len() as int) =~= ls);
    }
    let ghost st = go_run(ls)->Ok_0;
    match &open {
        Some((kind, line, col)) => {
            let mut head = copy(kind);
            head.push(' ');
            head.push('(');
            proof {
                reveal_strlit(" (");
                assert(head@ =~= kind@ + " ("@);
            }
            let what = backquoted(&head, " is never closed");
            return Err(Error::syntax(what.as_str(), *line, *col));
        },
        None => {},
    }
    if doc.module.is_none() {
        let mut msg = text::owned(path);
        text::append(&mut msg, ": no `module` directive; this does not look like a go.mod");
        return Err(Error::usage(msg.as_str()));
    }
    let (packages, roots) = packages_of(&doc, Ghost(st));
    Ok(
        Tree {
            ecosystem: Ecosystem::Go,
            source: text::owned(path),
            packages,
            edges: Vec::new(),
            roots,
            records_edges: false,
            records_install_scripts: false,
        },
    )
}

proof fn lemma_total_take(ls: Seq<Seq<char>>, i: int)
    requires
        0 <= i < ls.len(),
    ensures
        text::total(ls.take(i + 1)) == text::total(ls.take(i)) + ls[i].len(),
        text::total(ls.take(i + 1)) <= text::total(ls),
    decreases ls.len() - i,
{
    assert(ls.take(i + 1).drop_last() =~= ls.take(i));
    if i + 1 < ls.len() {
        lemma_total_take(ls, i + 1);
    } else {
        assert(ls.take(i + 1) =~= ls);
    }
}

} // verus!
