//! Argument parsing.
//!
//! Flags, a subcommand and three exit codes do not need a parser generator,
//! and a hand-written one can say what it expected here rather than printing
//! a grammar. Options take `--flag value` or `--flag=value`, and a bare `--`
//! ends the options so a path that starts with `-` is still reachable.
use crate::error::{Error, Result};
use crate::rules::{self, Severity};
use crate::semver;
use crate::text;
use crate::tree::DEFAULT_DEPTH;
use vstd::prelude::*;

verus! {

pub const USAGE: &'static str = "\
stranger — audit a dependency tree without installing, resolving, or phoning anything

usage:
  stranger scan [path]           audit the lockfiles under `path` (default: .)
  stranger tree <pkg> [path]     what depends on `pkg`, and what `pkg` depends on
  stranger diff <old> <new>      what changed between two lockfiles, and what
                                 that change introduced

options:
  --format <human|json>          output format (default: human); a directory
                                 scan writes one object per lockfile per line,
                                 so the stream is NDJSON — read it a line at a
                                 time, `jq` does, `json.load` does not. A scan
                                 that could not see everything leads with one
                                 more object, the one with no `source` key
  --fail-on <level>              scan: exit 1 when a finding is at or above
                                 low | medium | high | critical. On `diff` it
                                 gates on what the change *introduced*, not on
                                 the whole tree, so a pull request that adds
                                 nothing passes on a tree `scan` would fail
  --depth <n>                    tree: how deep to print out-edges
                                 (default: 3; 0 for no limit)
  --no-color                     never colour output (NO_COLOR, CLICOLOR_FORCE)
  -v, --verbose                  scan: list every finding, not just the critical ones
  -q, --quiet                    drop the header and the prose; findings only
  -h, --help                     this
  -V, --version                  version

Options take `--flag value` or `--flag=value`. A bare `--` ends the options,
so a path that starts with `-` is still reachable.

exit codes:
  0  clean, or findings below the --fail-on threshold
  1  a finding at or above the threshold
  2  bad usage, a file that could not be read, or a directory that could not
     be opened — an unreadable directory outranks the findings, because a
     scan short by an unknown number of lockfiles cannot answer --fail-on
";

#[derive(Debug, Clone, Copy, PartialEq, Eq, Structural)]
pub enum Format {
    Human,
    Json,
}

#[derive(Debug, Clone, Copy, PartialEq, Eq, Structural)]
pub enum Color {
    Auto,
    Never,
}

#[derive(Debug)]
pub struct Options {
    pub path: String,
    pub verbose: bool,
    pub format: Format,
    pub fail_on: Option<Severity>,
    pub color: Color,
    pub quiet: bool,
}

#[derive(Debug)]
pub struct TreeOptions {
    pub package: String,
    pub path: String,
    pub format: Format,
    pub color: Color,
    pub quiet: bool,
    /// 0 means no limit.
    pub depth: usize,
}

#[derive(Debug)]
pub struct DiffOptions {
    pub old: String,
    pub new: String,
    pub format: Format,
    pub fail_on: Option<Severity>,
    pub color: Color,
    pub quiet: bool,
}

#[derive(Debug)]
pub enum Command {
    Scan(Options),
    Tree(TreeOptions),
    Diff(DiffOptions),
    Help,
    Version,
}

/// The options of a command as plain values. `fail_on` and `depth` are
/// unused by the commands that do not take them.
pub struct Opts {
    pub path: Seq<char>,
    pub second: Seq<char>,
    pub verbose: bool,
    pub format: Format,
    pub fail_on: Option<Severity>,
    pub color: Color,
    pub quiet: bool,
    pub depth: nat,
}

pub enum Parsed {
    Scan(Opts),
    Tree(Opts),
    Diff(Opts),
    Help,
    Version,
}

/// `--flag=value` split from `--flag value`; long options only, so a path
/// holding `=` is never split.
pub open spec fn split_flag_spec(arg: Seq<char>) -> (Seq<char>, Option<Seq<char>>) {
    let at = text::find(arg, '=');
    if at >= 0 && "--"@.is_prefix_of(arg.take(at)) && at > 2 {
        (arg.take(at), Some(arg.skip(at + 1)))
    } else {
        (arg, None)
    }
}

/// The value of an option, from `=` or from the argument at `next`, and where
/// reading goes on.
pub open spec fn value_spec(
    inline: Option<Seq<char>>,
    args: Seq<Seq<char>>,
    next: int,
    flag: Seq<char>,
) -> core::result::Result<(Seq<char>, int), Seq<char>> {
    match inline {
        Some(v) => Ok((v, next)),
        None => if 0 <= next < args.len() {
            Ok((args[next], next + 1))
        } else {
            Err(flag + " needs a value"@)
        },
    }
}

pub open spec fn switch_error(flag: Seq<char>, v: Seq<char>) -> Seq<char> {
    flag + " is a switch and takes no value, so `="@ + v + "` means nothing"@
}

pub open spec fn format_named(v: Seq<char>) -> Option<Format> {
    if v == "human"@ {
        Some(Format::Human)
    } else if v == "json"@ {
        Some(Format::Json)
    } else {
        None
    }
}

pub open spec fn format_error(v: Seq<char>) -> Seq<char> {
    "--format takes `human` or `json`, not `"@ + v + "`"@
}

pub open spec fn fail_on_error(v: Seq<char>) -> Seq<char> {
    "--fail-on takes low, medium, high or critical, not `"@ + v + "`"@
}

pub open spec fn depth_error(v: Seq<char>) -> Seq<char> {
    "--depth takes a whole number of levels, or 0 for no limit, not `"@ + v + "`"@
}

/// What `usize::from_str` makes of `s`.
pub open spec fn parse_count(s: Seq<char>) -> Option<nat> {
    match semver::parse_num(s) {
        Some(n) => if n <= usize::MAX {
            Some(n as nat)
        } else {
            None
        },
        None => None,
    }
}

/// Which command is being read.
#[derive(Clone, Copy, PartialEq, Eq, Structural)]
pub enum Which {
    Scan,
    Tree,
    Diff,
}

/// What reading one argument does: go on (past one argument or, for an
/// option that took the next as its value, two) with new options, or stop
/// with an answer.
pub enum Step {
    Next(bool, Opts, nat, bool),
    Stop(core::result::Result<Parsed, Seq<char>>),
}

/// Reading the argument at `i`, with the options so far, how many
/// positionals have been seen, and whether a bare `--` has ended the options.
pub open spec fn step_spec(
    which: Which,
    args: Seq<Seq<char>>,
    i: int,
    o: Opts,
    positional: nat,
    only: bool,
) -> Step {
    let arg = args[i];
    let (flag, inline) = if only {
        (arg, None)
    } else {
        split_flag_spec(arg)
    };
    let took = inline is None;
    if flag == "--"@ && !only {
        Step::Next(false, o, positional, true)
    } else if !only && flag == "--format"@ {
        match value_spec(inline, args, i + 1, "--format"@) {
            Err(e) => Step::Stop(Err(e)),
            Ok((v, _)) => match format_named(v) {
                None => Step::Stop(Err(format_error(v))),
                Some(f) => Step::Next(took, Opts { format: f, ..o }, positional, only),
            },
        }
    } else if !only && flag == "--fail-on"@ && which != Which::Tree {
        match value_spec(inline, args, i + 1, "--fail-on"@) {
            Err(e) => Step::Stop(Err(e)),
            Ok((v, _)) => match rules::severity_named(v) {
                None => Step::Stop(Err(fail_on_error(v))),
                Some(sv) => Step::Next(took, Opts { fail_on: Some(sv), ..o }, positional, only),
            },
        }
    } else if !only && flag == "--depth"@ && which == Which::Tree {
        match value_spec(inline, args, i + 1, "--depth"@) {
            Err(e) => Step::Stop(Err(e)),
            Ok((v, _)) => match parse_count(v) {
                None => Step::Stop(Err(depth_error(v))),
                Some(d) => Step::Next(took, Opts { depth: d, ..o }, positional, only),
            },
        }
    } else if !only && flag == "--no-color"@ {
        match inline {
            Some(v) => Step::Stop(Err(switch_error("--no-color"@, v))),
            None => Step::Next(false, Opts { color: Color::Never, ..o }, positional, only),
        }
    } else if !only && (flag == "-v"@ || flag == "--verbose"@) && which == Which::Scan {
        match inline {
            Some(v) => Step::Stop(Err(switch_error(flag, v))),
            None => Step::Next(false, Opts { verbose: true, ..o }, positional, only),
        }
    } else if !only && (flag == "-q"@ || flag == "--quiet"@) {
        match inline {
            Some(v) => Step::Stop(Err(switch_error(flag, v))),
            None => Step::Next(false, Opts { quiet: true, ..o }, positional, only),
        }
    } else if !only && (flag == "-h"@ || flag == "--help"@) {
        Step::Stop(Ok(Parsed::Help))
    } else if !only && which == Which::Tree && (flag == "--fail-on"@ || flag == "-v"@ || flag
        == "--verbose"@) {
        Step::Stop(Err("`"@ + flag + "` is a scan flag; tree reports no findings to gate on"@))
    } else if !only && which == Which::Diff && flag == "--depth"@ {
        Step::Stop(Err("`--depth` is a tree flag; diff walks no edges"@))
    } else if !only && which == Which::Diff && (flag == "-v"@ || flag == "--verbose"@) {
        Step::Stop(Err("`--verbose` is a scan flag; diff already lists every change"@))
    } else if flag.len() > 0 && flag[0] == '-' && !only {
        Step::Stop(Err("unknown option `"@ + flag + "`"@))
    } else {
        match which {
            Which::Scan => if positional > 0 {
                Step::Stop(Err("scan takes one path; got a second, `"@ + flag + "`"@))
            } else {
                Step::Next(false, Opts { path: flag, ..o }, 1, only)
            },
            Which::Tree => if positional == 0 {
                Step::Next(false, Opts { second: flag, ..o }, 1, only)
            } else if positional == 1 {
                Step::Next(false, Opts { path: flag, ..o }, 2, only)
            } else {
                Step::Stop(
                    Err(
                        "tree takes a package and one path; got a third argument, `"@ + flag
                            + "`"@,
                    ),
                )
            },
            Which::Diff => if positional == 0 {
                Step::Next(false, Opts { path: flag, ..o }, 1, only)
            } else if positional == 1 {
                Step::Next(false, Opts { second: flag, ..o }, 2, only)
            } else {
                Step::Stop(
                    Err(
                        "diff takes exactly two lockfiles; got a third argument, `"@ + flag
                            + "`"@,
                    ),
                )
            },
        }
    }
}

/// Reading the arguments from `i` on.
pub open spec fn run(
    which: Which,
    args: Seq<Seq<char>>,
    i: int,
    o: Opts,
    positional: nat,
    only: bool,
) -> core::result::Result<Parsed, Seq<char>>
    decreases args.len() - i,
{
    if i >= args.len() || i < 0 {
        finish(which, o, positional)
    } else {
        match step_spec(which, args, i, o, positional, only) {
            Step::Stop(r) => r,
            Step::Next(two, o2, p2, only2) => run(
                which,
                args,
                i + if two {
                    2int
                } else {
                    1int
                },
                o2,
                p2,
                only2,
            ),
        }
    }
}

/// The arguments are all read.
pub open spec fn finish(which: Which, o: Opts, positional: nat) -> core::result::Result<
    Parsed,
    Seq<char>,
> {
    match which {
        Which::Scan => Ok(Parsed::Scan(o)),
        Which::Tree => if o.second.len() == 0 {
            Err("tree needs a package name: stranger tree <pkg> [path]"@)
        } else {
            Ok(Parsed::Tree(o))
        },
        Which::Diff => if o.path.len() == 0 || o.second.len() == 0 {
            Err("diff needs two lockfiles: stranger diff <old> <new>"@)
        } else {
            Ok(Parsed::Diff(o))
        },
    }
}

pub open spec fn start(which: Which) -> Opts {
    Opts {
        path: if which == Which::Diff {
            seq![]
        } else {
            "."@
        },
        second: seq![],
        verbose: false,
        format: Format::Human,
        fail_on: None,
        color: Color::Auto,
        quiet: false,
        depth: DEFAULT_DEPTH as nat,
    }
}

/// What the command line means. The first argument is the program's name.
pub open spec fn parse_spec(args: Seq<Seq<char>>) -> core::result::Result<Parsed, Seq<char>> {
    if args.len() < 2 {
        Ok(Parsed::Help)
    } else {
        let first = args[1];
        if first == "-h"@ || first == "--help"@ || first == "help"@ {
            Ok(Parsed::Help)
        } else if first == "-V"@ || first == "--version"@ {
            Ok(Parsed::Version)
        } else if first == "scan"@ {
            run(Which::Scan, args, 2, start(Which::Scan), 0, false)
        } else if first == "tree"@ {
            run(Which::Tree, args, 2, start(Which::Tree), 0, false)
        } else if first == "diff"@ {
            run(Which::Diff, args, 2, start(Which::Diff), 0, false)
        } else {
            Err("unknown command `"@ + first + "`; stranger takes `scan`, `tree` or `diff`"@)
        }
    }
}

/// The command the plain values describe.
pub open spec fn command_is(c: Command, p: Parsed) -> bool {
    match p {
        Parsed::Help => c is Help,
        Parsed::Version => c is Version,
        Parsed::Scan(o) => c matches Command::Scan(s) && s.path@ == o.path && s.verbose == o.verbose
            && s.format == o.format && s.fail_on == o.fail_on && s.color == o.color && s.quiet
            == o.quiet,
        Parsed::Tree(o) => c matches Command::Tree(t) && t.package@ == o.second && t.path@ == o.path
            && t.format == o.format && t.color == o.color && t.quiet == o.quiet && t.depth
            == o.depth,
        Parsed::Diff(o) => c matches Command::Diff(d) && d.old@ == o.path && d.new@ == o.second
            && d.format == o.format && d.fail_on == o.fail_on && d.color == o.color && d.quiet
            == o.quiet,
    }
}

fn is(t: &[char], word: &str) -> (r: bool)
    ensures
        r == (t@ == word@),
{
    let w = text::chars_of(word);
    text::same_chars(t, &w)
}

fn split_flag(arg: &[char]) -> (r: (Vec<char>, Option<Vec<char>>))
    ensures
        (r.0@, match r.1 {
            Some(v) => Some(v@),
            None => None,
        }) == split_flag_spec(arg@),
{
    let dashes = text::chars_of("--");
    match text::find_char(arg, '=') {
        Some(at) => {
            let flag = text::slice(arg, 0, at);
            proof {
                assert(flag@ =~= arg@.take(at as int));
            }
            if text::starts_with(&flag, &dashes) && at > 2 {
                assert(at < arg.len());
                let v = text::slice(arg, at + 1, arg.len());
                proof {
                    assert(v@ =~= arg@.skip(at + 1));
                }
                (flag, Some(v))
            } else {
                proof {
                    assert(arg@.subrange(0, arg@.len() as int) =~= arg@);
                }
                (text::slice(arg, 0, arg.len()), None)
            }
        },
        None => {
            proof {
                assert(arg@.subrange(0, arg@.len() as int) =~= arg@);
            }
            (text::slice(arg, 0, arg.len()), None)
        },
    }
}

struct Reading {
    path: Vec<char>,
    second: Vec<char>,
    verbose: bool,
    format: Format,
    fail_on: Option<Severity>,
    color: Color,
    quiet: bool,
    depth: usize,
}

spec fn reading_view(r: &Reading) -> Opts {
    Opts {
        path: r.path@,
        second: r.second@,
        verbose: r.verbose,
        format: r.format,
        fail_on: r.fail_on,
        color: r.color,
        quiet: r.quiet,
        depth: r.depth as nat,
    }
}

fn error_text(parts_a: &str, middle: &[char], parts_b: &str) -> (s: String)
    ensures
        s@ == parts_a@ + middle@ + parts_b@,
{
    let mut s = text::owned(parts_a);
    text::append(&mut s, text::string_of(middle).as_str());
    text::append(&mut s, parts_b);
    s
}

fn depth_of(v: &[char]) -> (r: Option<usize>)
    ensures
        match parse_count(v@) {
            Some(n) => r matches Some(d) && d == n,
            None => r is None,
        },
{
    match semver::number(v) {
        Some(n) => if n <= usize::MAX as u64 {
            Some(n as usize)
        } else {
            None
        },
        None => None,
    }
}

enum Did {
    One,
    Two,
    Help,
    Fail(String),
}

/// The value an option takes, from `=` or from the next argument.
fn value_of(inline: Option<Vec<char>>, args: &Vec<Vec<char>>, i: usize, flag: &str) -> (r: core::result::Result<Vec<char>, String>)
    requires
        i < args@.len(),
    ensures
        match value_spec(
            match inline {
                Some(v) => Some(v@),
                None => None,
            },
            text::seqs(args@),
            i + 1,
            flag@,
        ) {
            Ok((v, _)) => r matches Ok(x) && x@ == v,
            Err(m) => r matches Err(s) && s@ == m,
        },
{
    match inline {
        Some(v) => Ok(v),
        None => if args.len() - i > 1 {
            proof {
                assert(text::seqs(args@)[i + 1] == args@[i + 1]@);
                assert(args@[i + 1]@.subrange(0, args@[i + 1]@.len() as int) =~= args@[i + 1]@);
            }
            Ok(text::slice(&args[i + 1], 0, args[i + 1].len()))
        } else {
            let mut m = text::owned(flag);
            text::append(&mut m, " needs a value");
            Err(m)
        },
    }
}

fn switch_fail(flag: &[char], v: &[char]) -> (s: String)
    ensures
        s@ == switch_error(flag@, v@),
{
    let mut m = text::string_of(flag);
    text::append(&mut m, error_text(" is a switch and takes no value, so `=", v, "` means nothing").as_str());
    m
}

/// One argument, the one at `i`.
fn step(
    which: Which,
    args: &Vec<Vec<char>>,
    i: usize,
    o: &mut Reading,
    positional: &mut u8,
    only: &mut bool,
) -> (r: Did)
    requires
        i < args@.len(),
        *old(positional) <= 2,
    ensures
        *final(positional) <= 2,
        match step_spec(which, text::seqs(args@), i as int, reading_view(old(o)), *old(positional) as nat, *old(only)) {
            Step::Next(two, o2, p2, only2) => (if two {
                r is Two && i + 1 < args@.len()
            } else {
                r is One
            }) && reading_view(final(o)) == o2 && *final(positional) == p2 && *final(only) == only2,
            Step::Stop(Ok(Parsed::Help)) => r is Help,
            Step::Stop(Err(m)) => r matches Did::Fail(s) && s@ == m,
            Step::Stop(Ok(_)) => false,
        },
{
    let arg = &args[i];
    proof {
        assert(text::seqs(args@)[i as int] == arg@);
    }
    let (flag, inline) = if *only {
        proof {
            assert(arg@.subrange(0, arg@.len() as int) =~= arg@);
        }
        (text::slice(arg, 0, arg.len()), None)
    } else {
        split_flag(arg)
    };
    let took = inline.is_none();
    if is(&flag, "--") && !*only {
        *only = true;
        return Did::One;
    }
    if !*only && is(&flag, "--format") {
        return match value_of(inline, args, i, "--format") {
            Err(m) => Did::Fail(m),
            Ok(v) => if is(&v, "human") {
                o.format = Format::Human;
                if took { Did::Two } else { Did::One }
            } else if is(&v, "json") {
                o.format = Format::Json;
                if took { Did::Two } else { Did::One }
            } else {
                Did::Fail(error_text("--format takes `human` or `json`, not `", &v, "`"))
            },
        };
    }
    if !*only && is(&flag, "--fail-on") && which != Which::Tree {
        return match value_of(inline, args, i, "--fail-on") {
            Err(m) => Did::Fail(m),
            Ok(v) => match Severity::parse(text::string_of(&v).as_str()) {
                Some(sv) => {
                    o.fail_on = Some(sv);
                    if took { Did::Two } else { Did::One }
                },
                None => Did::Fail(
                    error_text("--fail-on takes low, medium, high or critical, not `", &v, "`"),
                ),
            },
        };
    }
    if !*only && is(&flag, "--depth") && which == Which::Tree {
        return match value_of(inline, args, i, "--depth") {
            Err(m) => Did::Fail(m),
            Ok(v) => match depth_of(&v) {
                Some(d) => {
                    o.depth = d;
                    if took { Did::Two } else { Did::One }
                },
                None => Did::Fail(
                    error_text(
                        "--depth takes a whole number of levels, or 0 for no limit, not `",
                        &v,
                        "`",
                    ),
                ),
            },
        };
    }
    if !*only && is(&flag, "--no-color") {
        return match &inline {
            Some(v) => {
                let f = text::chars_of("--no-color");
                Did::Fail(switch_fail(&f, v))
            },
            None => {
                o.color = Color::Never;
                Did::One
            },
        };
    }
    if !*only && (is(&flag, "-v") || is(&flag, "--verbose")) && which == Which::Scan {
        return match &inline {
            Some(v) => Did::Fail(switch_fail(&flag, v)),
            None => {
                o.verbose = true;
                Did::One
            },
        };
    }
    if !*only && (is(&flag, "-q") || is(&flag, "--quiet")) {
        return match &inline {
            Some(v) => Did::Fail(switch_fail(&flag, v)),
            None => {
                o.quiet = true;
                Did::One
            },
        };
    }
    if !*only && (is(&flag, "-h") || is(&flag, "--help")) {
        return Did::Help;
    }
    if !*only && which == Which::Tree && (is(&flag, "--fail-on") || is(&flag, "-v") || is(&flag, "--verbose")) {
        return Did::Fail(error_text("`", &flag, "` is a scan flag; tree reports no findings to gate on"));
    }
    if !*only && which == Which::Diff && is(&flag, "--depth") {
        return Did::Fail(text::owned("`--depth` is a tree flag; diff walks no edges"));
    }
    if !*only && which == Which::Diff && (is(&flag, "-v") || is(&flag, "--verbose")) {
        return Did::Fail(text::owned("`--verbose` is a scan flag; diff already lists every change"));
    }
    if flag.len() > 0 && flag[0] == '-' && !*only {
        return Did::Fail(error_text("unknown option `", &flag, "`"));
    }
    match which {
        Which::Scan => {
            if *positional > 0 {
                return Did::Fail(error_text("scan takes one path; got a second, `", &flag, "`"));
            }
            o.path = flag;
            *positional = 1;
        },
        Which::Tree => {
            if *positional == 0 {
                o.second = flag;
                *positional = 1;
            } else if *positional == 1 {
                o.path = flag;
                *positional = 2;
            } else {
                return Did::Fail(
                    error_text("tree takes a package and one path; got a third argument, `", &flag, "`"),
                );
            }
        },
        Which::Diff => {
            if *positional == 0 {
                o.path = flag;
                *positional = 1;
            } else if *positional == 1 {
                o.second = flag;
                *positional = 2;
            } else {
                return Did::Fail(
                    error_text("diff takes exactly two lockfiles; got a third argument, `", &flag, "`"),
                );
            }
        },
    }
    Did::One
}

fn run_exec(which: Which, args: &Vec<Vec<char>>, i0: usize, o: Reading, Ghost(start_view): Ghost<Opts>) -> (r: core::result::Result<
    (Reading, u8),
    String,
>)
    requires
        i0 <= args@.len(),
        reading_view(&o) == start_view,
    ensures
        match run(which, text::seqs(args@), i0 as int, start_view, 0, false) {
            Ok(Parsed::Help) => r matches Ok((_, k)) && k == 1,
            Ok(Parsed::Version) => true,
            Ok(Parsed::Scan(v)) => r matches Ok((x, k)) && k == 0 && reading_view(&x) == v,
            Ok(Parsed::Tree(v)) => r matches Ok((x, k)) && k == 0 && reading_view(&x) == v,
            Ok(Parsed::Diff(v)) => r matches Ok((x, k)) && k == 0 && reading_view(&x) == v,
            Err(m) => r matches Err(s) && s@ == m,
        },
{
    let ghost a = text::seqs(args@);
    let mut o = o;
    let mut i = i0;
    let mut positional: u8 = 0;
    let mut only = false;
    let ghost goal = run(which, a, i0 as int, reading_view(&o), 0, false);
    proof {
        lemma_run_not_version(which, a, i0 as int, reading_view(&o), 0, false);
    }
    while i < args.len()
        invariant
            a == text::seqs(args@),
            goal == run(which, a, i0 as int, start_view, 0, false),
            i <= args@.len(),
            positional <= 2,
            goal == run(which, a, i as int, reading_view(&o), positional as nat, only),
        decreases args@.len() - i,
    {
        let ghost ov = reading_view(&o);
        let ghost pv = positional;
        let ghost onv = only;
        proof {
            assert(goal == match step_spec(which, a, i as int, ov, pv as nat, onv) {
                Step::Stop(r) => r,
                Step::Next(two, o2, p2, only2) => run(
                    which,
                    a,
                    i + if two {
                        2int
                    } else {
                        1int
                    },
                    o2,
                    p2,
                    only2,
                ),
            });
        }
        match step(which, args, i, &mut o, &mut positional, &mut only) {
            Did::One => {
                i = i + 1;
            },
            Did::Two => {
                i = i + 2;
            },
            Did::Help => {
                proof {
                    assert(step_spec(which, a, i as int, ov, pv as nat, onv) == Step::Stop(Ok(Parsed::Help)));
                    assert(goal == Ok::<Parsed, Seq<char>>(Parsed::Help));
                }
                return Ok((o, 1));
            },
            Did::Fail(m) => {
                proof {
                    assert(step_spec(which, a, i as int, ov, pv as nat, onv) is Stop);
                    assert(goal == Err::<Parsed, Seq<char>>(m@));
                }
                return Err(m);
            },
        }
    }
    match which {
        Which::Scan => Ok((o, 0)),
        Which::Tree => if o.second.len() == 0 {
            Err(text::owned("tree needs a package name: stranger tree <pkg> [path]"))
        } else {
            Ok((o, 0))
        },
        Which::Diff => if o.path.len() == 0 || o.second.len() == 0 {
            Err(text::owned("diff needs two lockfiles: stranger diff <old> <new>"))
        } else {
            Ok((o, 0))
        },
    }
}

proof fn lemma_run_not_version(
    which: Which,
    args: Seq<Seq<char>>,
    i: int,
    o: Opts,
    positional: nat,
    only: bool,
)
    ensures
        !(run(which, args, i, o, positional, only) matches Ok(Parsed::Version)),
        run(which, args, i, o, positional, only) matches Ok(Parsed::Scan(_)) ==> which == Which::Scan,
        run(which, args, i, o, positional, only) matches Ok(Parsed::Tree(_)) ==> which == Which::Tree,
        run(which, args, i, o, positional, only) matches Ok(Parsed::Diff(_)) ==> which == Which::Diff,
    decreases args.len() - i,
{
    if 0 <= i < args.len() {
        match step_spec(which, args, i, o, positional, only) {
            Step::Stop(r) => {},
            Step::Next(two, o2, p2, only2) => {
                lemma_run_not_version(
                    which,
                    args,
                    i + if two {
                        2int
                    } else {
                        1int
                    },
                    o2,
                    p2,
                    only2,
                );
            },
        }
    }
}

fn fresh(which: Which) -> (r: Reading)
    ensures
        reading_view(&r) == start(which),
{
    let path = if which == Which::Diff {
        Vec::new()
    } else {
        text::chars_of(".")
    };
    let r = Reading {
        path,
        second: Vec::new(),
        verbose: false,
        format: Format::Human,
        fail_on: None,
        color: Color::Auto,
        quiet: false,
        depth: DEFAULT_DEPTH,
    };
    proof {
        assert(r.second@ =~= Seq::<char>::empty());
        if which == Which::Diff {
            assert(r.path@ =~= Seq::<char>::empty());
        }
    }
    r
}

/// What the command line means. The first argument is the program's name.
pub fn parse(args: Vec<String>) -> (r: Result<Command>)
    ensures
        match parse_spec(text::strings(args@)) {
            Ok(p) => r matches Ok(c) && command_is(c, p),
            Err(m) => r matches Err(Error::Usage(msg)) && msg@ == m,
        },
{
    let mut a: Vec<Vec<char>> = Vec::new();
    for i in 0..args.len()
        invariant
            text::seqs(a@) == text::strings(args@).take(i as int),
    {
        let c = text::chars_of(args[i].as_str());
        let ghost old_a = a@;
        a.push(c);
        proof {
            assert(text::seqs(a@) =~= text::seqs(old_a).push(c@));
            assert(text::strings(args@).take(i + 1) =~= text::strings(args@).take(i as int).push(
                args@[i as int]@,
            ));
        }
    }
    proof {
        assert(text::strings(args@).take(args@.len() as int) =~= text::strings(args@));
    }
    if a.len() < 2 {
        return Ok(Command::Help);
    }
    let first = &a[1];
    proof {
        assert(text::seqs(a@)[1] == first@);
    }
    if is(first, "-h") || is(first, "--help") || is(first, "help") {
        return Ok(Command::Help);
    }
    if is(first, "-V") || is(first, "--version") {
        return Ok(Command::Version);
    }
    let which = if is(first, "scan") {
        Which::Scan
    } else if is(first, "tree") {
        Which::Tree
    } else if is(first, "diff") {
        Which::Diff
    } else {
        let m = error_text("unknown command `", first, "`; stranger takes `scan`, `tree` or `diff`");
        return Err(Error::usage(m.as_str()));
    };
    proof {
        assert(text::seqs(a@) == text::strings(args@));
        assert(parse_spec(text::strings(args@)) == run(which, text::seqs(a@), 2, start(which), 0, false));
    }
    proof {
        lemma_run_not_version(which, text::seqs(a@), 2, start(which), 0, false);
    }
    let init = fresh(which);
    match run_exec(which, &a, 2, init, Ghost(start(which))) {
        Err(m) => Err(Error::usage(m.as_str())),
        Ok((o, kind)) => {
            if kind == 1 {
                return Ok(Command::Help);
            }
            match which {
                Which::Scan => Ok(
                    Command::Scan(
                        Options {
                            path: text::string_of(&o.path),
                            verbose: o.verbose,
                            format: o.format,
                            fail_on: o.fail_on,
                            color: o.color,
                            quiet: o.quiet,
                        },
                    ),
                ),
                Which::Tree => Ok(
                    Command::Tree(
                        TreeOptions {
                            package: text::string_of(&o.second),
                            path: text::string_of(&o.path),
                            format: o.format,
                            color: o.color,
                            quiet: o.quiet,
                            depth: o.depth,
                        },
                    ),
                ),
                Which::Diff => Ok(
                    Command::Diff(
                        DiffOptions {
                            old: text::string_of(&o.path),
                            new: text::string_of(&o.second),
                            format: o.format,
                            fail_on: o.fail_on,
                            color: o.color,
                            quiet: o.quiet,
                        },
                    ),
                ),
            }
        },
    }
}

/// How a scan exits: 2 when it read nothing or could not look everywhere, 1
/// when a finding is at or above `--fail-on`, 0 otherwise.
pub open spec fn exit_code_of(read: nat, blind: bool, fail_on: Option<Severity>, worst: Option<Severity>) -> u8 {
    if read == 0 || blind {
        2
    } else if fail_on matches Some(t) && worst matches Some(s) && rules::severity_level(s)
        >= rules::severity_level(t) {
        1
    } else {
        0
    }
}

/// The exit code of a scan that read `read` lockfiles, whose worst finding
/// was `worst`; `blind` when some directory could not be opened.
pub fn exit_code(read: usize, blind: bool, fail_on: Option<Severity>, worst: Option<Severity>) -> (c: u8)
    ensures
        c == exit_code_of(read as nat, blind, fail_on, worst),
{
    if read == 0 || blind {
        return 2;
    }
    match (fail_on, worst) {
        (Some(t), Some(s)) => if s.level() >= t.level() {
            1
        } else {
            0
        },
        _ => 0,
    }
}

} // verus!
