//! Terminal colour and column layout, hand-written.
use crate::text;
use vstd::prelude::*;

verus! {

/// Sixteen-colour SGR only. These render the way the reader's theme intends.
#[derive(Debug, Clone, Copy, PartialEq, Eq, Structural)]
pub enum Style {
    Red,
    Orange,
    Yellow,
    Dim,
}

pub open spec fn style_code(s: Style) -> Seq<char> {
    match s {
        Style::Red => "\x1b[31m"@,
        Style::Orange => "\x1b[93m"@,
        Style::Yellow => "\x1b[33m"@,
        Style::Dim => "\x1b[2m"@,
    }
}

pub open spec fn reset_code() -> Seq<char> {
    "\x1b[0m"@
}

impl Style {
    fn code(self) -> (s: &'static str)
        ensures
            s@ == style_code(self),
    {
        match self {
            Style::Red => "\x1b[31m",
            Style::Orange => "\x1b[93m",
            Style::Yellow => "\x1b[33m",
            Style::Dim => "\x1b[2m",
        }
    }
}

#[derive(Debug, Clone, Copy, PartialEq, Eq, Structural)]
pub struct Term {
    color: bool,
}

impl Term {
    /// Whether this terminal gets escape codes.
    pub closed spec fn colored(self) -> bool {
        self.color
    }

    pub fn new(color: bool) -> (t: Term)
        ensures
            t.colored() == color,
    {
        Term { color }
    }

    /// `text` wrapped in the style's SGR code and a reset, or unchanged when
    /// colour is off.
    pub fn paint(self, style: Style, text: &str) -> (s: String)
        ensures
            s@ == painted(self.colored(), style, text@),
    {
        if self.color {
            let mut s = text::owned(style.code());
            text::append(&mut s, text);
            text::append(&mut s, "\x1b[0m");
            proof {
                reveal_strlit("\x1b[0m");
            }
            s
        } else {
            text::owned(text)
        }
    }
}

pub open spec fn painted(color: bool, style: Style, text: Seq<char>) -> Seq<char> {
    if color {
        style_code(style) + text + reset_code()
    } else {
        text
    }
}

/// Present and non-empty.
pub open spec fn said(v: Option<Seq<char>>) -> bool {
    v matches Some(s) && s.len() > 0
}

fn is_said(v: Option<&str>) -> (r: bool)
    ensures
        r == (v matches Some(s) && s@.len() > 0),
{
    match v {
        Some(s) => !s.is_empty(),
        None => false,
    }
}

/// Whether to emit escape codes, as a pure function of its four inputs.
///
/// Highest priority first: `--no-color`, then `NO_COLOR`, then
/// `CLICOLOR_FORCE`, then whether stdout is a TTY. Both variables count only
/// when present *and* non-empty.
pub fn decide(
    cli_no_color: bool,
    no_color: Option<&str>,
    clicolor_force: Option<&str>,
    tty: bool,
) -> (on: bool)
    ensures
        on == (!cli_no_color && !(no_color matches Some(v) && v@.len() > 0) && ((
        clicolor_force matches Some(v) && v@.len() > 0) || tty)),
{
    if cli_no_color || is_said(no_color) {
        return false;
    }
    if is_said(clicolor_force) {
        return true;
    }
    tty
}

/// C0 controls, DEL and the C1 range.
pub open spec fn is_control(c: char) -> bool {
    ('\0' <= c && c <= '\x1f') || ('\x7f' <= c && c <= '\u{9f}')
}

/// `s` with every control character replaced by U+FFFD.
pub open spec fn sanitized(s: Seq<char>) -> Seq<char> {
    s.map_values(|c: char| if is_control(c) { '\u{fffd}' } else { c })
}

fn control(c: char) -> (r: bool)
    ensures
        r == is_control(c),
{
    ('\0' <= c && c <= '\x1f') || ('\x7f' <= c && c <= '\u{9f}')
}

/// Untrusted text, safe to hand to a terminal: every control character is
/// replaced with U+FFFD, so the cell still takes a column and the reader can
/// see that something was there.
pub fn sanitize(s: &str) -> (r: String)
    ensures
        r@ == sanitized(s@),
{
    let cs = text::chars_of(s);
    let mut out: Vec<char> = Vec::new();
    for i in 0..cs.len()
        invariant
            cs@ == s@,
            out@ == sanitized(s@.take(i as int)),
    {
        let c = cs[i];
        out.push(
            if control(c) {
                '\u{fffd}'
            } else {
                c
            },
        );
        proof {
            assert(sanitized(s@.take(i + 1)) =~= sanitized(s@.take(i as int)).push(
                if is_control(c) {
                    '\u{fffd}'
                } else {
                    c
                },
            ));
        }
    }
    proof {
        assert(s@.take(s@.len() as int) =~= s@);
    }
    text::string_of(&out)
}

/// Display width of a cell: one column per Unicode scalar.
pub fn width(s: &str) -> (w: usize)
    ensures
        w == s@.len(),
{
    text::chars_of(s).len()
}

/// The widest of `cells`, never narrower than `min`.
pub open spec fn column_width(cells: Seq<Seq<char>>, min: int) -> int
    decreases cells.len(),
{
    if cells.len() == 0 {
        min
    } else {
        let w = column_width(cells.drop_last(), min);
        if cells.last().len() > w {
            cells.last().len() as int
        } else {
            w
        }
    }
}

pub open spec fn views(cells: Seq<String>) -> Seq<Seq<char>> {
    cells.map_values(|c: String| c@)
}

/// Widest cell in a column, never narrower than `min`.
pub fn column(cells: &[String], min: usize) -> (w: usize)
    ensures
        w == column_width(views(cells@), min as int),
{
    let mut w = min;
    for i in 0..cells.len()
        invariant
            w == column_width(views(cells@.take(i as int)), min as int),
    {
        let c = width(cells[i].as_str());
        proof {
            assert(views(cells@.take(i + 1)).drop_last() =~= views(cells@.take(i as int)));
            assert(views(cells@.take(i + 1)).last() == cells@[i as int]@);
        }
        if c > w {
            w = c;
        }
    }
    proof {
        assert(cells@.take(cells@.len() as int) =~= cells@);
    }
    w
}

/// `n` spaces.
pub open spec fn spaces(n: int) -> Seq<char> {
    Seq::new(if n > 0 {
        n as nat
    } else {
        0
    }, |i: int| ' ')
}

/// `s` followed by enough spaces to reach `to` columns. A cell wider than its
/// column pushes the row out instead of being truncated.
pub fn pad(s: &str, to: usize) -> (r: String)
    ensures
        r@ == s@ + spaces(to - s@.len()),
{
    let mut out = text::owned(s);
    let w = width(s);
    let mut i = w;
    while i < to
        invariant
            w == s@.len(),
            w <= i,
            w <= to ==> i <= to,
            w > to ==> i == w,
            out@ == s@ + spaces(i - w),
        decreases to - i,
    {
        text::push_char(&mut out, ' ');
        proof {
            assert(spaces(i - w).len() == i - w);
            assert(spaces(i + 1 - w).len() == i + 1 - w);
            assert(spaces(i - w).push(' ') =~= spaces(i + 1 - w));
        }
        i = i + 1;
    }
    proof {
        if w >= to {
            assert(spaces(i - w).len() == 0);
            assert(spaces(to - w).len() == 0);
            assert(spaces(i - w) =~= spaces(to - w));
        }
    }
    out
}

} // verus!
