//! A TOML reader, cut down to what lockfiles actually contain.
//!
//! Accepted: `key = value` at the top level and inside `[table]` blocks;
//! `[table]` and `[dotted.table]` headers; `[[array.of.tables]]`; basic,
//! literal and multi-line strings; decimal integers with `_` separators;
//! `true` and `false`; arrays over any number of lines, trailing comma
//! allowed; one-line inline tables; `#` comments.
//!
//! Refused, with a position: floats, dates and times as bare values; hex,
//! octal and binary integers; dotted keys outside a header; inline tables
//! over several lines; duplicate keys, and any header that reopens something
//! already defined.
//!
//! As in `json`, each production is a spec function over the characters of
//! the input, and the parser is proved to give exactly its answers.
use crate::error::{Error, Result};
use crate::json::{self, Parsed};
use crate::text;
use vstd::prelude::*;

verus! {

/// Arrays, inline tables and header segments all count against this.
pub const MAX_DEPTH: u32 = 64;

#[derive(Debug)]
pub enum Value {
    String(String),
    /// TOML integers are 64-bit signed, so this is the whole range.
    Integer(i64),
    Bool(bool),
    Array(Vec<Value>),
    /// Keys in byte order, each once.
    Table(Vec<(String, Value)>),
}

/// A TOML value as plain values.
pub enum TValue {
    Str(Seq<char>),
    Int(int),
    Bool(bool),
    Array(Seq<TValue>),
    Table(Seq<(Seq<char>, TValue)>),
}

pub open spec fn tview(v: Value) -> TValue
    decreases v,
{
    match v {
        Value::String(s) => TValue::Str(s@),
        Value::Integer(n) => TValue::Int(n as int),
        Value::Bool(b) => TValue::Bool(b),
        Value::Array(items) => TValue::Array(
            Seq::new(
                items@.len(),
                |i: int|
                    if 0 <= i < items@.len() {
                        tview(items@[i])
                    } else {
                        TValue::Bool(false)
                    },
            ),
        ),
        Value::Table(m) => TValue::Table(
            Seq::new(
                m@.len(),
                |i: int|
                    if 0 <= i < m@.len() {
                        (m@[i].0@, tview(m@[i].1))
                    } else {
                        (seq![], TValue::Bool(false))
                    },
            ),
        ),
    }
}

pub open spec fn tviews(v: Seq<Value>) -> Seq<TValue> {
    v.map_values(|x: Value| tview(x))
}

pub open spec fn entries_view(m: Seq<(String, Value)>) -> Seq<(Seq<char>, TValue)> {
    m.map_values(|x: (String, Value)| (x.0@, tview(x.1)))
}

/// An array's view is its items' views.
pub proof fn lemma_tview_array(items: Vec<Value>)
    ensures
        tview(Value::Array(items)) == TValue::Array(tviews(items@)),
{
    let a = match tview(Value::Array(items)) {
        TValue::Array(a) => a,
        _ => seq![],
    };
    assert(a.len() == items@.len());
    assert forall|i: int| 0 <= i < a.len() implies a[i] == tviews(items@)[i] by {}
    assert(a =~= tviews(items@));
}

/// A table's view is its entries' views.
pub proof fn lemma_tview_table(m: Vec<(String, Value)>)
    ensures
        tview(Value::Table(m)) == TValue::Table(entries_view(m@)),
{
    let a = match tview(Value::Table(m)) {
        TValue::Table(a) => a,
        _ => seq![],
    };
    assert(a.len() == m@.len());
    assert forall|i: int| 0 <= i < a.len() implies a[i] == entries_view(m@)[i] by {}
    assert(a =~= entries_view(m@));
}

/// The first position at or after `p` that is not a space or a tab.
pub open spec fn spaces_end(s: Seq<char>, p: int) -> int
    decreases s.len() - p,
{
    if 0 <= p < s.len() && (s[p] == ' ' || s[p] == '\t') {
        spaces_end(s, p + 1)
    } else {
        p
    }
}

/// The first newline at or after `p`, or the end.
pub open spec fn line_end(s: Seq<char>, p: int) -> int
    decreases s.len() - p,
{
    if 0 <= p < s.len() && s[p] != '\n' {
        line_end(s, p + 1)
    } else {
        p
    }
}

pub proof fn lemma_line_end(s: Seq<char>, p: int)
    ensures
        line_end(s, p) >= p,
        0 <= p < s.len() && s[p] != '\n' ==> line_end(s, p) > p,
        p <= s.len() ==> line_end(s, p) <= s.len(),
    decreases s.len() - p,
{
    if 0 <= p < s.len() && s[p] != '\n' {
        lemma_line_end(s, p + 1);
    }
}

pub open spec fn is_blank(c: char) -> bool {
    c == ' ' || c == '\t' || c == '\n' || c == '\r'
}

/// Whitespace, newlines and whole comments from `p` on: what may stand
/// between statements and inside arrays.
pub open spec fn blank_end(s: Seq<char>, p: int) -> int
    decreases s.len() - p,
{
    if 0 <= p < s.len() && is_blank(s[p]) {
        blank_end(s, p + 1)
    } else if 0 <= p < s.len() && s[p] == '#' {
        proof {
            lemma_line_end(s, p);
        }
        blank_end(s, line_end(s, p))
    } else {
        p
    }
}

/// A statement owns the rest of its line: spaces and a comment may follow a
/// value, then a newline or the end.
pub open spec fn eol_spec(s: Seq<char>, p: int) -> core::result::Result<int, (Seq<char>, int)> {
    let q0 = spaces_end(s, p);
    let q = if 0 <= q0 < s.len() && s[q0] == '#' {
        line_end(s, q0)
    } else {
        q0
    };
    if q < 0 || q >= s.len() {
        Ok(q)
    } else if s[q] == '\n' {
        Ok(q + 1)
    } else if s[q] == '\r' && q + 1 < s.len() && s[q + 1] == '\n' {
        Ok(q + 2)
    } else {
        Err(("expected a newline"@, q))
    }
}

pub open spec fn starts_at(s: Seq<char>, p: int, w: Seq<char>) -> bool {
    0 <= p && p + w.len() <= s.len() && s.subrange(p, p + w.len()) == w
}

/// Bytes 0x00 to 0x08, 0x0B to 0x1F, and 0x7F.
pub open spec fn is_control(c: char) -> bool {
    (c as int) <= 8 || (11 <= (c as int) <= 31) || (c as int) == 127
}

/// Whether the bytes from `p` on reach exactly `want`, counting `acc`
/// already: whether that byte ends a character.
pub open spec fn hits(s: Seq<char>, p: int, acc: nat, want: nat) -> bool
    decreases s.len() - p,
{
    if acc == want {
        true
    } else if acc > want || p < 0 || p >= s.len() {
        false
    } else {
        hits(s, p + 1, acc + text::char_utf8_len(s[p]), want)
    }
}

/// The value of the `n` hex digits at `p`.
pub open spec fn hex_value(s: Seq<char>, p: int, n: nat) -> int
    decreases n,
{
    if n == 0 {
        0
    } else {
        hex_value(s, p, (n - 1) as nat) * 16 + json::hex_val(s[p + n - 1])
    }
}

pub open spec fn all_hex(s: Seq<char>, p: int, n: nat) -> bool {
    forall|i: int| p <= i < p + n ==> json::is_hex(#[trigger] s[i])
}

/// `width` hex digits at `p`, naming a Unicode scalar value.
pub open spec fn hex_spec(s: Seq<char>, p: int, width: nat) -> Parsed<char> {
    if 0 <= p && p + width <= s.len() && all_hex(s, p, width) {
        let n = hex_value(s, p, width);
        if n < 0xD800 || (0xE000 <= n && n <= 0x10FFFF) {
            Ok((n as char, p + width))
        } else {
            Err(("escape is not a Unicode scalar value"@, p + width))
        }
    } else if hits(s, p, 0, width) {
        Err(("unicode escape needs "@ + text::decimal(width) + " hex digits"@, p))
    } else {
        Err(("truncated unicode escape"@, p))
    }
}

/// One escape, after its backslash: JSON's list without `\/`, and `\U` for
/// the astral planes.
pub open spec fn escape_spec(s: Seq<char>, p: int) -> Parsed<char> {
    if p < 0 || p >= s.len() {
        Err(("unterminated escape"@, p))
    } else {
        let b = s[p];
        if b == '"' {
            Ok(('"', p + 1))
        } else if b == '\\' {
            Ok(('\\', p + 1))
        } else if b == 'b' {
            Ok(('\u{8}', p + 1))
        } else if b == 'f' {
            Ok(('\u{c}', p + 1))
        } else if b == 'n' {
            Ok(('\n', p + 1))
        } else if b == 'r' {
            Ok(('\r', p + 1))
        } else if b == 't' {
            Ok(('\t', p + 1))
        } else if b == 'u' {
            hex_spec(s, p + 1, 4)
        } else if b == 'U' {
            hex_spec(s, p + 1, 8)
        } else {
            Err(("unknown escape `\\"@ + seq![json::lead_byte(b)] + "`"@, p))
        }
    }
}

/// An escape always consumes its own characters.
pub proof fn lemma_escape_advances(s: Seq<char>, p: int)
    ensures
        escape_spec(s, p) matches Ok((c, q)) ==> q > p,
{
}

/// The rest of a basic string from `q`, opened at `open`.
pub open spec fn basic_rest(s: Seq<char>, open: int, q: int, acc: Seq<char>) -> Parsed<Seq<char>>
    decreases s.len() - q,
{
    if q < 0 || q >= s.len() {
        Err(("unterminated string"@, open))
    } else {
        let c = s[q];
        if c == '"' {
            Ok((acc, q + 1))
        } else if c == '\\' {
            match escape_spec(s, q + 1) {
                Err(e) => Err(e),
                Ok((x, r)) => {
                    proof {
                        lemma_escape_advances(s, q + 1);
                    }
                    basic_rest(s, open, r, acc.push(x))
                },
            }
        } else if c == '\n' || c == '\r' {
            Err(("unterminated string"@, open))
        } else if is_control(c) {
            Err(("control character in string"@, q))
        } else {
            basic_rest(s, open, q + 1, acc.push(c))
        }
    }
}

/// The rest of a literal string from `q`, opened at `open`.
pub open spec fn literal_rest(s: Seq<char>, open: int, q: int, acc: Seq<char>) -> Parsed<Seq<char>>
    decreases s.len() - q,
{
    if q < 0 || q >= s.len() {
        Err(("unterminated literal string"@, open))
    } else {
        let c = s[q];
        if c == '\'' {
            Ok((acc, q + 1))
        } else if c == '\n' || c == '\r' {
            Err(("unterminated literal string"@, open))
        } else if is_control(c) {
            Err(("control character in string"@, q))
        } else {
            literal_rest(s, open, q + 1, acc.push(c))
        }
    }
}

/// How many `quote`s in a row start at `q`.
pub open spec fn run_len(s: Seq<char>, q: int, quote: char) -> int
    decreases s.len() - q,
{
    if 0 <= q < s.len() && s[q] == quote {
        1 + run_len(s, q + 1, quote)
    } else {
        0
    }
}

pub open spec fn repeat(c: char, n: int) -> Seq<char> {
    Seq::new(
        if n > 0 {
            n as nat
        } else {
            0
        },
        |i: int| c,
    )
}

/// Spaces and tabs, then a newline: a backslash here folds the line.
pub open spec fn folds(s: Seq<char>, after: int) -> bool {
    let w = spaces_end(s, after);
    (0 <= w < s.len() && s[w] == '\n') || starts_at(s, w, "\r\n"@)
}

/// The first position at or after `p` that is not a space, tab or line
/// break.
pub open spec fn ws_end(s: Seq<char>, p: int) -> int
    decreases s.len() - p,
{
    if 0 <= p < s.len() && is_blank(s[p]) {
        ws_end(s, p + 1)
    } else {
        p
    }
}

/// Tab, newline and carriage return are content in a multi-line string; the
/// rest of the C0 range is not.
pub open spec fn is_ml_control(c: char) -> bool {
    (c as int) <= 8 || (c as int) == 11 || (c as int) == 12 || (14 <= (c as int) <= 31) || (c as int)
        == 127
}

/// The rest of a multi-line string from `q`, opened at `open`. The closing
/// delimiter is a run of three to five quotes: up to two of them may be
/// content. Backslashes mean something only between `"""`.
pub open spec fn ml_rest(s: Seq<char>, open: int, q: int, quote: char, acc: Seq<char>) -> Parsed<
    Seq<char>,
>
    decreases s.len() - q,
{
    if q < 0 || q >= s.len() {
        Err(("unterminated multi-line string"@, open))
    } else {
        let c = s[q];
        if c == quote {
            let run = run_len(s, q, quote);
            if run >= 6 {
                Err(("too many quotes to close a multi-line string"@, q))
            } else if run >= 3 {
                Ok((acc + repeat(quote, run - 3), q + run))
            } else {
                proof {
                    lemma_run_len(s, q, quote);
                }
                ml_rest(s, open, q + run, quote, acc + repeat(quote, run))
            }
        } else if c == '\\' && quote == '"' {
            if folds(s, q + 1) {
                proof {
                    lemma_ws_end(s, q + 1);
                }
                ml_rest(s, open, ws_end(s, q + 1), quote, acc)
            } else {
                match escape_spec(s, q + 1) {
                    Err(e) => Err(e),
                    Ok((x, r)) => {
                        proof {
                            lemma_escape_advances(s, q + 1);
                        }
                        ml_rest(s, open, r, quote, acc.push(x))
                    },
                }
            }
        } else if is_ml_control(c) {
            Err(("control character in string"@, q))
        } else {
            ml_rest(s, open, q + 1, quote, acc.push(c))
        }
    }
}

pub proof fn lemma_run_len(s: Seq<char>, q: int, quote: char)
    ensures
        0 <= run_len(s, q, quote),
        0 <= q < s.len() && s[q] == quote ==> run_len(s, q, quote) >= 1,
        q >= 0 ==> q + run_len(s, q, quote) <= if q <= s.len() {
            s.len() as int
        } else {
            q
        },
    decreases s.len() - q,
{
    if 0 <= q < s.len() && s[q] == quote {
        lemma_run_len(s, q + 1, quote);
    }
}

pub proof fn lemma_ws_end(s: Seq<char>, p: int)
    ensures
        ws_end(s, p) >= p,
        p <= s.len() ==> ws_end(s, p) <= s.len(),
    decreases s.len() - p,
{
    if 0 <= p < s.len() && is_blank(s[p]) {
        lemma_ws_end(s, p + 1);
    }
}

/// A multi-line string whose three quotes start at `p`: a newline right
/// after them is not content.
pub open spec fn multiline_spec(s: Seq<char>, p: int, quote: char) -> Parsed<Seq<char>> {
    let q = if starts_at(s, p + 3, "\r\n"@) {
        p + 5
    } else if 0 <= p + 3 < s.len() && s[p + 3] == '\n' {
        p + 4
    } else {
        p + 3
    };
    ml_rest(s, p, q, quote, seq![])
}

/// A string at `p`, of whichever of the four kinds it opens as.
pub open spec fn string_spec(s: Seq<char>, p: int) -> Parsed<Seq<char>> {
    if starts_at(s, p, "\"\"\""@) {
        multiline_spec(s, p, '"')
    } else if starts_at(s, p, "'''"@) {
        multiline_spec(s, p, '\'')
    } else if 0 <= p < s.len() && s[p] == '\'' {
        literal_rest(s, p, p + 1, seq![])
    } else {
        basic_rest(s, p, p + 1, seq![])
    }
}

pub open spec fn is_bare(c: char) -> bool {
    ('A' <= c && c <= 'Z') || ('a' <= c && c <= 'z') || ('0' <= c && c <= '9') || c == '_' || c
        == '-'
}

/// The end of the run of bare-key characters from `p`.
pub open spec fn bare_end(s: Seq<char>, p: int) -> int
    decreases s.len() - p,
{
    if 0 <= p < s.len() && is_bare(s[p]) {
        bare_end(s, p + 1)
    } else {
        p
    }
}

/// One key, bare or quoted; never dotted.
pub open spec fn key_spec(s: Seq<char>, p: int) -> Parsed<Seq<char>> {
    if starts_at(s, p, "\"\"\""@) || starts_at(s, p, "'''"@) {
        Err(("a multi-line string cannot be a key"@, p))
    } else if 0 <= p < s.len() && s[p] == '"' {
        basic_rest(s, p, p + 1, seq![])
    } else if 0 <= p < s.len() && s[p] == '\'' {
        literal_rest(s, p, p + 1, seq![])
    } else if 0 <= p < s.len() && is_bare(s[p]) {
        Ok((s.subrange(p, bare_end(s, p)), bare_end(s, p)))
    } else {
        Err(("expected a key"@, p))
    }
}

/// Digits from `q`, a `_` allowed only between two of them.
pub open spec fn int_scan(s: Seq<char>, q: int, digits: Seq<char>) -> (Seq<char>, int)
    decreases s.len() - q,
{
    if 0 <= q < s.len() && json::is_digit(s[q]) {
        int_scan(s, q + 1, digits.push(s[q]))
    } else if 0 <= q < s.len() && s[q] == '_' && digits.len() > 0 && q + 1 < s.len() && json::is_digit(
        s[q + 1],
    ) {
        int_scan(s, q + 1, digits)
    } else {
        (digits, q)
    }
}

/// A decimal integer at `p`. A float or a date starts like one, so each is
/// refused at the character that gives it away.
pub open spec fn integer_spec(s: Seq<char>, p: int) -> Parsed<int> {
    let neg = 0 <= p < s.len() && s[p] == '-';
    let a = if 0 <= p < s.len() && (s[p] == '+' || s[p] == '-') {
        p + 1
    } else {
        p
    };
    if 0 <= a && a + 1 < s.len() && s[a] == '0' && (s[a + 1] == 'x' || s[a + 1] == 'X' || s[a + 1]
        == 'o' || s[a + 1] == 'O' || s[a + 1] == 'b' || s[a + 1] == 'B') {
        Err(("only decimal integers are supported"@, a))
    } else {
        let (digits, e) = int_scan(s, a, seq![]);
        if digits.len() == 0 {
            Err(("expected a digit"@, e))
        } else if 0 <= e < s.len() && (s[e] == '.' || s[e] == 'e' || s[e] == 'E') {
            Err(("floats are not part of the supported TOML subset"@, e))
        } else if 0 <= e < s.len() && (s[e] == '-' || s[e] == ':') {
            Err(("dates and times are not part of the supported TOML subset"@, e))
        } else if digits.len() > 1 && digits[0] == '0' {
            Err(("an integer may not have leading zeros"@, p))
        } else {
            let v: int = if neg {
                -(text::decimal_value(digits) as int)
            } else {
                text::decimal_value(digits) as int
            };
            if v < i64::MIN || v > i64::MAX {
                Err(("integer does not fit in 64 bits"@, p))
            } else {
                Ok((v, e))
            }
        }
    }
}

/// Where `k` is, or goes, in a table kept in byte order of key: the first
/// member whose key is `k` or sorts after it.
pub open spec fn tpos(m: Seq<(Seq<char>, TValue)>, k: Seq<char>) -> int
    decreases m.len(),
{
    if m.len() == 0 {
        0
    } else if m[0].0 == k || text::seq_lt(k, m[0].0) {
        0
    } else {
        1 + tpos(m.drop_first(), k)
    }
}

/// The member of a table called `k`, found by its place in key order.
pub open spec fn tget(m: Seq<(Seq<char>, TValue)>, k: Seq<char>) -> Option<TValue> {
    let j = tpos(m, k);
    if 0 <= j < m.len() && m[j].0 == k {
        Some(m[j].1)
    } else {
        None
    }
}

/// `m` has a member called `k`.
pub open spec fn has_key(m: Seq<(Seq<char>, TValue)>, k: Seq<char>) -> bool {
    tget(m, k) is Some
}

/// `m` with `k` set to `v`, keys kept in byte order.
pub open spec fn tinsert(m: Seq<(Seq<char>, TValue)>, k: Seq<char>, v: TValue) -> Seq<
    (Seq<char>, TValue),
>
    decreases m.len(),
{
    if m.len() == 0 {
        seq![(k, v)]
    } else if m[0].0 == k {
        seq![(k, v)] + m.drop_first()
    } else if text::seq_lt(k, m[0].0) {
        seq![(k, v)] + m
    } else {
        seq![m[0]] + tinsert(m.drop_first(), k, v)
    }
}

/// `word` at `p`.
pub open spec fn word_spec(s: Seq<char>, p: int, word: Seq<char>) -> core::result::Result<
    int,
    (Seq<char>, int),
> {
    if starts_at(s, p, word) {
        Ok(p + word.len())
    } else {
        Err(("expected `"@ + word + "`"@, p))
    }
}

/// A value at `p`, `d` containers deep.
pub open spec fn value_spec(s: Seq<char>, p: int, d: int) -> Parsed<TValue>
    decreases 2 * (MAX_DEPTH - d) + 1, s.len() - p,
{
    if d < 0 || d > MAX_DEPTH {
        Err(("nesting deeper than 64"@, p))
    } else if p < 0 || p >= s.len() {
        Err(("unexpected end of input"@, p))
    } else {
        let c = s[p];
        if c == '"' || c == '\'' {
            match string_spec(s, p) {
                Err(e) => Err(e),
                Ok((t, q)) => Ok((TValue::Str(t), q)),
            }
        } else if c == '[' {
            if d + 1 > MAX_DEPTH {
                Err(("nesting deeper than 64"@, p))
            } else {
                items_spec(s, p, p + 1, d + 1, seq![])
            }
        } else if c == '{' {
            if d + 1 > MAX_DEPTH {
                Err(("nesting deeper than 64"@, p))
            } else {
                let q = spaces_end(s, p + 1);
                if 0 <= q < s.len() && s[q] == '}' {
                    Ok((TValue::Table(seq![]), q + 1))
                } else {
                    inline_spec(s, p, q, d + 1, seq![])
                }
            }
        } else if c == 't' {
            match word_spec(s, p, "true"@) {
                Err(e) => Err(e),
                Ok(q) => Ok((TValue::Bool(true), q)),
            }
        } else if c == 'f' {
            match word_spec(s, p, "false"@) {
                Err(e) => Err(e),
                Ok(q) => Ok((TValue::Bool(false), q)),
            }
        } else if c == '+' || c == '-' || json::is_digit(c) {
            match integer_spec(s, p) {
                Err(e) => Err(e),
                Ok((n, q)) => Ok((TValue::Int(n), q)),
            }
        } else {
            Err(("expected a value"@, p))
        }
    }
}

/// Array items from `q`, the array opened at `open`. A close is looked for
/// before every item, so `[]` and a trailing comma both fall out.
pub open spec fn items_spec(s: Seq<char>, open: int, q: int, e: int, acc: Seq<TValue>) -> Parsed<
    TValue,
>
    decreases 2 * (MAX_DEPTH - e) + 2, s.len() - q,
{
    let q1 = blank_end(s, q);
    if e < 0 || e > MAX_DEPTH {
        Err(("nesting deeper than 64"@, q))
    } else if 0 <= q1 < s.len() && s[q1] == ']' {
        Ok((TValue::Array(acc), q1 + 1))
    } else if q1 < 0 || q1 >= s.len() {
        Err(("unclosed array"@, open))
    } else {
        match value_spec(s, q1, e) {
            Err(x) => Err(x),
            Ok((v, r)) => {
                let r1 = blank_end(s, r);
                if r1 < q {
                    Err(("expected ',' or ']'"@, r1))
                } else if 0 <= r1 < s.len() && s[r1] == ',' {
                    items_spec(s, open, r1 + 1, e, acc.push(v))
                } else if 0 <= r1 < s.len() && s[r1] == ']' {
                    Ok((TValue::Array(acc.push(v)), r1 + 1))
                } else if r1 < 0 || r1 >= s.len() {
                    Err(("unclosed array"@, open))
                } else {
                    Err(("expected ',' or ']'"@, r1))
                }
            },
        }
    }
}

/// Inline table members from `q`, the table opened at `open`. One line only,
/// as TOML 1.0 says.
pub open spec fn inline_spec(
    s: Seq<char>,
    open: int,
    q: int,
    e: int,
    acc: Seq<(Seq<char>, TValue)>,
) -> Parsed<TValue>
    decreases 2 * (MAX_DEPTH - e) + 2, s.len() - q,
{
    let k = spaces_end(s, q);
    if e < 0 || e > MAX_DEPTH {
        Err(("nesting deeper than 64"@, q))
    } else if 0 <= k < s.len() && (s[k] == '\n' || s[k] == '\r') {
        Err(("an inline table must fit on one line"@, k))
    } else {
        match key_spec(s, k) {
            Err(x) => Err(x),
            Ok((key, r)) => {
                let r1 = spaces_end(s, r);
                if 0 <= r1 < s.len() && s[r1] == '.' {
                    Err(("dotted keys are not part of the supported TOML subset"@, r1))
                } else if !(0 <= r1 < s.len() && s[r1] == '=') {
                    Err(("expected '='"@, r1))
                } else {
                    match value_spec(s, spaces_end(s, r1 + 1), e) {
                        Err(x) => Err(x),
                        Ok((v, t)) => if has_key(acc, key) {
                            Err(("duplicate key `"@ + key + "`"@, k))
                        } else {
                            let t1 = spaces_end(s, t);
                            let acc2 = tinsert(acc, key, v);
                            if t1 < q {
                                Err(("expected ',' or '}'"@, t1))
                            } else if 0 <= t1 < s.len() && s[t1] == ',' {
                                inline_spec(s, open, t1 + 1, e, acc2)
                            } else if 0 <= t1 < s.len() && s[t1] == '}' {
                                Ok((TValue::Table(acc2), t1 + 1))
                            } else if 0 <= t1 < s.len() && (s[t1] == '\n' || s[t1] == '\r') {
                                Err(("an inline table must fit on one line"@, t1))
                            } else if t1 < 0 || t1 >= s.len() {
                                Err(("unclosed inline table"@, open))
                            } else {
                                Err(("expected ',' or '}'"@, t1))
                            }
                        },
                    }
                }
            },
        }
    }
}

/// One step of a canonical path: a key, or an index into an array of tables.
/// Two headers of one name under different array elements are different
/// tables, and a key holding a dot is not a dotted path.
pub enum Seg {
    Key(Seq<char>),
    Index(int),
}

/// The table `path` reaches from `t`, with its canonical path: a missing
/// table is created, and an array of tables is entered at its last element.
/// `None` when a step meets anything else.
pub open spec fn reach(t: Seq<(Seq<char>, TValue)>, path: Seq<Seq<char>>) -> Option<
    (Seq<(Seq<char>, TValue)>, Seq<Seg>),
>
    decreases path.len(),
{
    if path.len() == 0 {
        Some((t, seq![]))
    } else {
        let k = path[0];
        let rest = path.drop_first();
        match tget(t, k) {
            None => match reach(seq![], rest) {
                None => None,
                Some((x, c)) => Some((x, seq![Seg::Key(k)] + c)),
            },
            Some(TValue::Table(sub)) => match reach(sub, rest) {
                None => None,
                Some((x, c)) => Some((x, seq![Seg::Key(k)] + c)),
            },
            Some(TValue::Array(items)) => if items.len() > 0 && items.last() is Table {
                match reach(items.last()->Table_0, rest) {
                    None => None,
                    Some((x, c)) => Some((x, seq![Seg::Key(k), Seg::Index(items.len() - 1)] + c)),
                }
            } else {
                None
            },
            _ => None,
        }
    }
}

/// `t` with the table `path` reaches replaced by `sub`, creating the tables
/// on the way.
pub open spec fn set_at(t: Seq<(Seq<char>, TValue)>, path: Seq<Seq<char>>, sub: Seq<(Seq<char>, TValue)>) -> Seq<
    (Seq<char>, TValue),
>
    decreases path.len(),
{
    if path.len() == 0 {
        sub
    } else {
        let k = path[0];
        let rest = path.drop_first();
        match tget(t, k) {
            None => tinsert(t, k, TValue::Table(set_at(seq![], rest, sub))),
            Some(TValue::Table(x)) => tinsert(t, k, TValue::Table(set_at(x, rest, sub))),
            Some(TValue::Array(items)) => if items.len() > 0 && items.last() is Table {
                tinsert(
                    t,
                    k,
                    TValue::Array(
                        items.update(
                            items.len() - 1,
                            TValue::Table(set_at(items.last()->Table_0, rest, sub)),
                        ),
                    ),
                )
            } else {
                t
            },
            _ => t,
        }
    }
}

/// The shortest prefix of `c` that a `=` already sealed, searching from
/// length `n`.
pub open spec fn sealed_from(imm: Set<Seq<Seg>>, c: Seq<Seg>, n: int) -> Option<Seq<Seg>>
    decreases c.len() + 1 - n,
{
    if n < 1 || n > c.len() {
        None
    } else if imm.contains(c.take(n)) {
        Some(c.take(n))
    } else {
        sealed_from(imm, c, n + 1)
    }
}

/// A canonical path spelled the way a file spells it.
pub open spec fn show(c: Seq<Seg>) -> Seq<char>
    decreases c.len(),
{
    if c.len() == 0 {
        seq![]
    } else {
        show(c.drop_last()) + match c.last() {
            Seg::Key(k) => if c.len() > 1 {
                "."@ + k
            } else {
                k
            },
            Seg::Index(n) => "["@ + text::decimal(n as nat) + "]"@,
        }
    }
}

/// `parts` joined with dots.
pub open spec fn dotted(parts: Seq<Seq<char>>) -> Seq<char> {
    text::join(parts, "."@)
}

/// What the reader knows between statements: the tree so far, the paths
/// opened by a header, the paths a `=` sealed, and the header now open.
pub struct Doc {
    pub root: Seq<(Seq<char>, TValue)>,
    pub defined: Set<Seq<Seg>>,
    pub sealed: Set<Seq<Seg>>,
    pub path: Seq<Seq<char>>,
}

/// The keys of a header from `q`, `d` of them read so far.
pub open spec fn header_keys(s: Seq<char>, q: int, d: int, acc: Seq<Seq<char>>) -> Parsed<Seq<Seq<char>>>
    decreases s.len() - q,
{
    let q1 = spaces_end(s, q);
    if d + 1 > MAX_DEPTH {
        Err(("nesting deeper than 64"@, q1))
    } else {
        match key_spec(s, q1) {
            Err(e) => Err(e),
            Ok((k, r)) => {
                let r1 = spaces_end(s, r);
                if r1 < q {
                    Err(("expected ']'"@, r1))
                } else if 0 <= r1 < s.len() && s[r1] == '.' {
                    header_keys(s, r1 + 1, d + 1, acc.push(k))
                } else {
                    Ok((acc.push(k), r1))
                }
            },
        }
    }
}

/// The state after `[[path]]` at `at`: a fresh table pushed onto the array
/// the path names, which is created when missing.
pub open spec fn array_header(st: Doc, path: Seq<Seq<char>>, at: int) -> core::result::Result<Doc, (Seq<char>, int)> {
    let parents = path.drop_last();
    let last = path.last();
    match reach(st.root, parents) {
        None => Err(("this header sits under a non-table"@, at)),
        Some((parent, c)) => {
            let c1 = c.push(Seg::Key(last));
            match sealed_from(st.sealed, c1, 1) {
                Some(x) => Err(
                    ("`"@ + show(x) + "` is already defined as a value, not an array of tables"@, at),
                ),
                None => match tget(parent, last) {
                    Some(TValue::Array(items)) => Ok(
                        Doc {
                            root: set_at(
                                st.root,
                                parents,
                                tinsert(parent, last, TValue::Array(items.push(TValue::Table(seq![])))),
                            ),
                            defined: st.defined.insert(c1.push(Seg::Index(items.len() as int))),
                            sealed: st.sealed,
                            path,
                        },
                    ),
                    None => Ok(
                        Doc {
                            root: set_at(
                                st.root,
                                parents,
                                tinsert(parent, last, TValue::Array(seq![TValue::Table(seq![])])),
                            ),
                            defined: st.defined.insert(c1.push(Seg::Index(0))),
                            sealed: st.sealed,
                            path,
                        },
                    ),
                    _ => Err(("`"@ + last + "` is already a table, not an array"@, at)),
                },
            }
        },
    }
}

/// The state after `[path]` at `at`: the table is created when missing, and
/// may be opened by a header only once.
pub open spec fn table_header(st: Doc, path: Seq<Seq<char>>, at: int) -> core::result::Result<Doc, (Seq<char>, int)> {
    match reach(st.root, path) {
        None => Err(("this header sits under a non-table"@, at)),
        Some((table, c)) => match sealed_from(st.sealed, c, 1) {
            Some(x) => Err(("`"@ + show(x) + "` is already defined as a value, not a table"@, at)),
            None => if st.defined.contains(c) {
                Err(("table `"@ + dotted(path) + "` is defined twice"@, at))
            } else {
                Ok(Doc { root: set_at(st.root, path, table), defined: st.defined.insert(c), sealed: st.sealed, path })
            },
        },
    }
}

/// The state after the header at `at`, and where its line ends.
pub open spec fn header_spec(s: Seq<char>, at: int, st: Doc) -> core::result::Result<(Doc, int), (Seq<char>, int)> {
    let array = 0 <= at + 1 < s.len() && s[at + 1] == '[';
    let q = if array {
        at + 2
    } else {
        at + 1
    };
    match header_keys(s, q, 0, seq![]) {
        Err(e) => Err(e),
        Ok((path, r)) => if !(0 <= r < s.len() && s[r] == ']') {
            Err(("expected ']'"@, r))
        } else if array && !(0 <= r + 1 < s.len() && s[r + 1] == ']') {
            Err(("expected ']'"@, r + 1))
        } else {
            match eol_spec(
                s,
                if array {
                    r + 2
                } else {
                    r + 1
                },
            ) {
                Err(e) => Err(e),
                Ok(end) => match if array {
                    array_header(st, path, at)
                } else {
                    table_header(st, path, at)
                } {
                    Err(e) => Err(e),
                    Ok(d) => Ok((d, end)),
                },
            }
        },
    }
}

/// The state after the `key = value` line at `at`, and where it ends.
pub open spec fn statement_spec(s: Seq<char>, at: int, st: Doc) -> core::result::Result<(Doc, int), (Seq<char>, int)> {
    match key_spec(s, at) {
        Err(e) => Err(e),
        Ok((key, r)) => {
            let r1 = spaces_end(s, r);
            if 0 <= r1 < s.len() && s[r1] == '.' {
                Err(("dotted keys are not part of the supported TOML subset"@, r1))
            } else if !(0 <= r1 < s.len() && s[r1] == '=') {
                Err(("expected '='"@, r1))
            } else {
                match value_spec(s, spaces_end(s, r1 + 1), 0) {
                    Err(e) => Err(e),
                    Ok((v, t)) => match eol_spec(s, t) {
                        Err(e) => Err(e),
                        Ok(end) => match reach(st.root, st.path) {
                            None => Err(("this key sits under a non-table"@, at)),
                            Some((table, c)) => if has_key(table, key) {
                                Err(("duplicate key `"@ + key + "`"@, at))
                            } else {
                                Ok(
                                    (
                                        Doc {
                                            root: set_at(st.root, st.path, tinsert(table, key, v)),
                                            defined: st.defined,
                                            sealed: st.sealed.insert(c.push(Seg::Key(key))),
                                            path: st.path,
                                        },
                                        end,
                                    ),
                                )
                            },
                        },
                    },
                }
            }
        },
    }
}

/// The document from `q` on.
pub open spec fn doc_spec(s: Seq<char>, q: int, st: Doc) -> core::result::Result<
    Seq<(Seq<char>, TValue)>,
    (Seq<char>, int),
>
    decreases s.len() - q,
{
    let q1 = blank_end(s, q);
    if q1 < 0 || q1 >= s.len() {
        Ok(st.root)
    } else {
        let next = if s[q1] == '[' {
            header_spec(s, q1, st)
        } else {
            statement_spec(s, q1, st)
        };
        match next {
            Err(e) => Err(e),
            Ok((st2, end)) => if end <= q || end > s.len() {
                Err(("expected a newline"@, end))
            } else {
                doc_spec(s, end, st2)
            },
        }
    }
}

/// The body of `src`: a byte-order mark is not part of it, and positions
/// count from after it.
pub open spec fn body(src: Seq<char>) -> Seq<char> {
    if src.len() > 0 && src[0] == '\u{feff}' {
        src.skip(1)
    } else {
        src
    }
}

/// What reading `src` gives: the document's table, or the error at its
/// position in the body.
pub open spec fn parsed(src: Seq<char>, r: Result<Value>) -> bool {
    let s = body(src);
    match parse_spec(src) {
        Ok(root) => r matches Ok(v) && tview(v) == TValue::Table(root),
        Err((what, at)) => r matches Err(e) && json::syntax_at(s, what, at, e),
    }
}

struct Parser {
    s: Vec<char>,
}

impl Parser {
    spec fn ok(&self) -> bool {
        self.s@.len() < u32::MAX
    }

    fn err(&self, what: &str, at: usize) -> (e: Error)
        requires
            self.ok(),
            at <= self.s@.len(),
        ensures
            json::syntax_at(self.s@, what@, at as int, e),
    {
        let mut line: u32 = 1;
        let mut col: u32 = 1;
        for i in 0..at
            invariant
                self.ok(),
                at <= self.s@.len(),
                line == json::newlines(self.s@.take(i as int)) + 1,
                col == json::since_newline(self.s@.take(i as int)) + 1,
                line <= i + 1,
                col <= i + 1,
        {
            proof {
                assert(self.s@.take(i + 1).drop_last() =~= self.s@.take(i as int));
            }
            if self.s[i] == '\n' {
                line = line + 1;
                col = 1;
            } else {
                col = col + 1;
            }
        }
        Error::syntax(what, line, col)
    }

    fn spaces(&self, p: usize) -> (q: usize)
        requires
            p <= self.s@.len(),
        ensures
            q == spaces_end(self.s@, p as int),
            p <= q <= self.s@.len(),
    {
        let mut q = p;
        while q < self.s.len() && (self.s[q] == ' ' || self.s[q] == '\t')
            invariant
                p <= q <= self.s@.len(),
                spaces_end(self.s@, q as int) == spaces_end(self.s@, p as int),
            decreases self.s@.len() - q,
        {
            q = q + 1;
        }
        q
    }

    fn to_line_end(&self, p: usize) -> (q: usize)
        requires
            p <= self.s@.len(),
        ensures
            q == line_end(self.s@, p as int),
            p <= q <= self.s@.len(),
    {
        let mut q = p;
        while q < self.s.len() && self.s[q] != '\n'
            invariant
                p <= q <= self.s@.len(),
                line_end(self.s@, q as int) == line_end(self.s@, p as int),
            decreases self.s@.len() - q,
        {
            q = q + 1;
        }
        q
    }

    fn blank(&self, p: usize) -> (q: usize)
        requires
            p <= self.s@.len(),
        ensures
            q == blank_end(self.s@, p as int),
            p <= q <= self.s@.len(),
    {
        let mut q = p;
        while q < self.s.len() && (self.s[q] == ' ' || self.s[q] == '\t' || self.s[q] == '\n'
            || self.s[q] == '\r' || self.s[q] == '#')
            invariant
                p <= q <= self.s@.len(),
                blank_end(self.s@, q as int) == blank_end(self.s@, p as int),
            decreases self.s@.len() - q,
        {
            if self.s[q] == '#' {
                proof {
                    lemma_line_end(self.s@, q as int);
                }
                q = self.to_line_end(q);
            } else {
                q = q + 1;
            }
        }
        q
    }

    fn blanks(&self, p: usize) -> (q: usize)
        requires
            p <= self.s@.len(),
        ensures
            q == ws_end(self.s@, p as int),
            p <= q <= self.s@.len(),
    {
        let mut q = p;
        while q < self.s.len() && (self.s[q] == ' ' || self.s[q] == '\t' || self.s[q] == '\n'
            || self.s[q] == '\r')
            invariant
                p <= q <= self.s@.len(),
                ws_end(self.s@, q as int) == ws_end(self.s@, p as int),
            decreases self.s@.len() - q,
        {
            q = q + 1;
        }
        q
    }

    fn at(&self, p: usize, w: &str) -> (r: bool)
        ensures
            r == starts_at(self.s@, p as int, w@),
    {
        let wc = text::chars_of(w);
        if p <= self.s.len() && wc.len() <= self.s.len() - p {
            let here = text::slice(&self.s, p, p + wc.len());
            text::same_chars(&here, &wc)
        } else {
            false
        }
    }

    fn eol(&self, p: usize) -> (r: Result<usize>)
        requires
            self.ok(),
            p <= self.s@.len(),
        ensures
            match eol_spec(self.s@, p as int) {
                Ok(q) => r matches Ok(q2) && q2 == q,
                Err((w, at)) => r matches Err(e) && json::syntax_at(self.s@, w, at, e),
            },
            r matches Ok(q2) ==> p <= q2 <= self.s@.len(),
    {
        let q0 = self.spaces(p);
        let q = if q0 < self.s.len() && self.s[q0] == '#' {
            self.to_line_end(q0)
        } else {
            q0
        };
        if q >= self.s.len() {
            Ok(q)
        } else if self.s[q] == '\n' {
            Ok(q + 1)
        } else if self.s[q] == '\r' && q + 1 < self.s.len() && self.s[q + 1] == '\n' {
            Ok(q + 2)
        } else {
            Err(self.err("expected a newline", q))
        }
    }

    fn hex(&self, p: usize, width: usize) -> (r: Result<(char, usize)>)
        requires
            self.ok(),
            p <= self.s@.len(),
            width == 4 || width == 8,
        ensures
            match hex_spec(self.s@, p as int, width as nat) {
                Ok((c, q)) => r matches Ok((d, q2)) && d == c && q2 == q,
                Err((w, at)) => r matches Err(e) && json::syntax_at(self.s@, w, at, e),
            },
    {
        let s = &self.s;
        let len = s.len();
        let mut ok = width <= len - p;
        let mut n: u32 = 0;
        let mut i: usize = 0;
        while ok && i < width
            invariant
                len == s@.len(),
                self.ok(),
                p <= s@.len(),
                width == 4 || width == 8,
                i <= width,
                ok ==> width <= s@.len() - p,
                ok ==> all_hex(s@, p as int, i as nat),
                ok ==> n == hex_value(s@, p as int, i as nat),
                ok ==> n < pow16(i as nat),
                !ok ==> !(p + width <= s@.len() && all_hex(s@, p as int, width as nat)),
            decreases width - i,
        {
            if json::hex(s[p + i]) {
                proof {
                    lemma_pow16(i as nat);
                }
                n = n * 16 + json::hex_digit(s[p + i]);
                i = i + 1;
            } else {
                ok = false;
                i = width;
            }
        }
        if ok {
            proof {
                assert(all_hex(s@, p as int, width as nat));
            }
            if n < 0xD800 || (0xE000 <= n && n <= 0x10FFFF) {
                match json::char_from(n) {
                    Some(c) => return Ok((c, p + width)),
                    None => return Err(self.err("escape is not a Unicode scalar value", p + width)),
                }
            } else {
                return Err(self.err("escape is not a Unicode scalar value", p + width));
            }
        }
        let mut q = p;
        let mut acc: usize = 0;
        while acc < width && q < s.len()
            invariant
                p <= q <= s@.len(),
                acc <= width + 3,
                width == 4 || width == 8,
                hits(s@, q as int, acc as nat, width as nat) == hits(s@, p as int, 0, width as nat),
            decreases s@.len() - q,
        {
            let c = s[q];
            let w: usize = if '\u{80}' > c {
                1
            } else if '\u{800}' > c {
                2
            } else if '\u{10000}' > c {
                3
            } else {
                4
            };
            acc = acc + w;
            q = q + 1;
        }
        if acc == width {
            let mut what = text::owned("unicode escape needs ");
            text::append(&mut what, text::decimal_of(width as u64).as_str());
            text::append(&mut what, " hex digits");
            Err(self.err(what.as_str(), p))
        } else {
            Err(self.err("truncated unicode escape", p))
        }
    }
}

/// `16^n`.
pub open spec fn pow16(n: nat) -> nat
    decreases n,
{
    if n == 0 {
        1
    } else {
        16 * pow16((n - 1) as nat)
    }
}

proof fn lemma_pow16(n: nat)
    ensures
        n <= 7 ==> pow16(n) <= 0x10000000,
        pow16(n) >= 1,
{
    lemma_pow16_mono(n, 7);
    lemma_pow16_mono(0, n);
    assert(pow16(7) == 0x10000000) by {
        reveal_with_fuel(pow16, 8);
    }
}

proof fn lemma_pow16_mono(a: nat, b: nat)
    ensures
        a <= b ==> pow16(a) <= pow16(b),
        pow16(b) >= 1,
    decreases b,
{
    if b > 0 {
        lemma_pow16_mono(a, (b - 1) as nat);
    }
}

impl Parser {
    fn escape(&self, p: usize) -> (r: Result<(char, usize)>)
        requires
            self.ok(),
            p <= self.s@.len(),
        ensures
            match escape_spec(self.s@, p as int) {
                Ok((c, q)) => r matches Ok((d, q2)) && d == c && q2 == q,
                Err((w, at)) => r matches Err(e) && json::syntax_at(self.s@, w, at, e),
            },
    {
        if p >= self.s.len() {
            return Err(self.err("unterminated escape", p));
        }
        let b = self.s[p];
        if b == '"' {
            Ok(('"', p + 1))
        } else if b == '\\' {
            Ok(('\\', p + 1))
        } else if b == 'b' {
            Ok(('\u{8}', p + 1))
        } else if b == 'f' {
            Ok(('\u{c}', p + 1))
        } else if b == 'n' {
            Ok(('\n', p + 1))
        } else if b == 'r' {
            Ok(('\r', p + 1))
        } else if b == 't' {
            Ok(('\t', p + 1))
        } else if b == 'u' {
            self.hex(p + 1, 4)
        } else if b == 'U' {
            self.hex(p + 1, 8)
        } else {
            let mut what = text::owned("unknown escape `\\");
            text::push_char(&mut what, json::lead(b));
            text::append(&mut what, "`");
            proof {
                reveal_strlit("`");
                reveal_strlit("unknown escape `\\");
                assert(what@ =~= "unknown escape `\\"@ + seq![json::lead_byte(b)] + "`"@);
            }
            Err(self.err(what.as_str(), p))
        }
    }

    /// A basic string whose opening quote is at `open`.
    fn basic(&self, open: usize) -> (r: Result<(String, usize)>)
        requires
            self.ok(),
            open < self.s@.len(),
        ensures
            match basic_rest(self.s@, open as int, open + 1, seq![]) {
                Ok((t, q)) => r matches Ok((x, q2)) && x@ == t && q2 == q && open < q2 <= self.s@.len(),
                Err((w, at)) => r matches Err(e) && json::syntax_at(self.s@, w, at, e),
            },
    {
        let mut out = String::new();
        let mut q = open + 1;
        loop
            invariant
                self.ok(),
                open < q <= self.s@.len(),
                basic_rest(self.s@, open as int, q as int, out@) == basic_rest(
                    self.s@,
                    open as int,
                    open + 1,
                    seq![],
                ),
            decreases self.s@.len() - q,
        {
            if q >= self.s.len() {
                return Err(self.err("unterminated string", open));
            }
            let c = self.s[q];
            if c == '"' {
                return Ok((out, q + 1));
            } else if c == '\\' {
                let (x, next) = self.escape(q + 1)?;
                text::push_char(&mut out, x);
                q = next;
            } else if c == '\n' || c == '\r' {
                return Err(self.err("unterminated string", open));
            } else if control(c) {
                return Err(self.err("control character in string", q));
            } else {
                text::push_char(&mut out, c);
                q = q + 1;
            }
        }
    }

    /// A literal string whose opening quote is at `open`.
    fn literal(&self, open: usize) -> (r: Result<(String, usize)>)
        requires
            self.ok(),
            open < self.s@.len(),
        ensures
            match literal_rest(self.s@, open as int, open + 1, seq![]) {
                Ok((t, q)) => r matches Ok((x, q2)) && x@ == t && q2 == q && open < q2 <= self.s@.len(),
                Err((w, at)) => r matches Err(e) && json::syntax_at(self.s@, w, at, e),
            },
    {
        let mut out = String::new();
        let mut q = open + 1;
        loop
            invariant
                self.ok(),
                open < q <= self.s@.len(),
                literal_rest(self.s@, open as int, q as int, out@) == literal_rest(
                    self.s@,
                    open as int,
                    open + 1,
                    seq![],
                ),
            decreases self.s@.len() - q,
        {
            if q >= self.s.len() {
                return Err(self.err("unterminated literal string", open));
            }
            let c = self.s[q];
            if c == '\'' {
                return Ok((out, q + 1));
            } else if c == '\n' || c == '\r' {
                return Err(self.err("unterminated literal string", open));
            } else if control(c) {
                return Err(self.err("control character in string", q));
            } else {
                text::push_char(&mut out, c);
                q = q + 1;
            }
        }
    }

    /// A multi-line string whose three quotes start at `p`.
    fn multiline(&self, p: usize, quote: char) -> (r: Result<(String, usize)>)
        requires
            self.ok(),
            p + 3 <= self.s@.len(),
        ensures
            match multiline_spec(self.s@, p as int, quote) {
                Ok((t, q)) => r matches Ok((x, q2)) && x@ == t && q2 == q && p < q2 <= self.s@.len(),
                Err((w, at)) => r matches Err(e) && json::syntax_at(self.s@, w, at, e),
            },
    {
        let mut q = if self.at(p + 3, "\r\n") {
            proof {
                reveal_strlit("\r\n");
            }
            p + 5
        } else if p + 3 < self.s.len() && self.s[p + 3] == '\n' {
            p + 4
        } else {
            p + 3
        };
        let mut out = String::new();
        loop
            invariant
                self.ok(),
                p < q <= self.s@.len(),
                ml_rest(self.s@, p as int, q as int, quote, out@) == multiline_spec(
                    self.s@,
                    p as int,
                    quote,
                ),
            decreases self.s@.len() - q,
        {
            if q >= self.s.len() {
                return Err(self.err("unterminated multi-line string", p));
            }
            let c = self.s[q];
            if c == quote {
                let mut run: usize = 0;
                while run < self.s.len() - q && self.s[q + run] == quote
                    invariant
                        q + run <= self.s@.len(),
                        run_len(self.s@, q as int, quote) == run + run_len(self.s@, q + run, quote),
                    decreases self.s@.len() - q - run,
                {
                    run = run + 1;
                }
                proof {
                    lemma_run_len(self.s@, q as int, quote);
                }
                if run >= 6 {
                    return Err(self.err("too many quotes to close a multi-line string", q));
                }
                let keep = if run >= 3 {
                    run - 3
                } else {
                    run
                };
                let ghost before = out@;
                for k in 0..keep
                    invariant
                        out@ == before + repeat(quote, k as int),
                {
                    text::push_char(&mut out, quote);
                    proof {
                        assert(out@ =~= before + repeat(quote, k + 1));
                    }
                }
                if run >= 3 {
                    return Ok((out, q + run));
                }
                q = q + run;
            } else if c == '\\' && quote == '"' {
                let w = self.spaces(q + 1);
                let fold = (w < self.s.len() && self.s[w] == '\n') || self.at(w, "\r\n");
                if fold {
                    q = self.blanks(q + 1);
                } else {
                    let (x, next) = self.escape(q + 1)?;
                    text::push_char(&mut out, x);
                    q = next;
                }
            } else if ml_control(c) {
                return Err(self.err("control character in string", q));
            } else {
                text::push_char(&mut out, c);
                q = q + 1;
            }
        }
    }

    fn string(&self, p: usize) -> (r: Result<(String, usize)>)
        requires
            self.ok(),
            p < self.s@.len(),
        ensures
            match string_spec(self.s@, p as int) {
                Ok((t, q)) => r matches Ok((x, q2)) && x@ == t && q2 == q && p < q2 <= self.s@.len(),
                Err((w, at)) => r matches Err(e) && json::syntax_at(self.s@, w, at, e),
            },
    {
        if self.at(p, "\"\"\"") {
            proof {
                reveal_strlit("\"\"\"");
            }
            self.multiline(p, '"')
        } else if self.at(p, "'''") {
            proof {
                reveal_strlit("'''");
            }
            self.multiline(p, '\'')
        } else if self.s[p] == '\'' {
            self.literal(p)
        } else {
            self.basic(p)
        }
    }

    fn key(&self, p: usize) -> (r: Result<(String, usize)>)
        requires
            self.ok(),
            p <= self.s@.len(),
        ensures
            match key_spec(self.s@, p as int) {
                Ok((t, q)) => r matches Ok((x, q2)) && x@ == t && q2 == q && p < q2 <= self.s@.len(),
                Err((w, at)) => r matches Err(e) && json::syntax_at(self.s@, w, at, e),
            },
    {
        if self.at(p, "\"\"\"") || self.at(p, "'''") {
            return Err(self.err("a multi-line string cannot be a key", p));
        }
        if p < self.s.len() && self.s[p] == '"' {
            self.basic(p)
        } else if p < self.s.len() && self.s[p] == '\'' {
            self.literal(p)
        } else if p < self.s.len() && bare(self.s[p]) {
            let mut q = p;
            while q < self.s.len() && bare(self.s[q])
                invariant
                    p <= q <= self.s@.len(),
                    bare_end(self.s@, q as int) == bare_end(self.s@, p as int),
                decreases self.s@.len() - q,
            {
                q = q + 1;
            }
            let k = text::slice(&self.s, p, q);
            Ok((text::string_of(&k), q))
        } else {
            Err(self.err("expected a key", p))
        }
    }
}

fn control(c: char) -> (r: bool)
    ensures
        r == is_control(c),
{
    let n = c as u32;
    n <= 8 || (11 <= n && n <= 31) || n == 127
}

fn ml_control(c: char) -> (r: bool)
    ensures
        r == is_ml_control(c),
{
    let n = c as u32;
    n <= 8 || n == 11 || n == 12 || (14 <= n && n <= 31) || n == 127
}

fn bare(c: char) -> (r: bool)
    ensures
        r == is_bare(c),
{
    ('A' <= c && c <= 'Z') || ('a' <= c && c <= 'z') || ('0' <= c && c <= '9') || c == '_' || c == '-'
}

proof fn lemma_tinsert_at(m: Seq<(Seq<char>, TValue)>, k: Seq<char>, v: TValue, i: int)
    requires
        0 <= i <= m.len(),
        forall|j: int| 0 <= j < i ==> (#[trigger] m[j]).0 != k && !text::seq_lt(k, m[j].0),
        i < m.len() ==> (m[i].0 == k || text::seq_lt(k, m[i].0)),
    ensures
        tinsert(m, k, v) == if i < m.len() && m[i].0 == k {
            m.update(i, (k, v))
        } else {
            m.insert(i, (k, v))
        },
    decreases m.len(),
{
    if m.len() == 0 {
        assert(m.insert(0, (k, v)) =~= seq![(k, v)]);
    } else if i == 0 {
        if m[0].0 == k {
            assert(m.update(0, (k, v)) =~= seq![(k, v)] + m.drop_first());
        } else {
            assert(m.insert(0, (k, v)) =~= seq![(k, v)] + m);
        }
    } else {
        let t = m.drop_first();
        assert forall|j: int| 0 <= j < i - 1 implies (#[trigger] t[j]).0 != k && !text::seq_lt(k, t[j].0) by {
            assert(t[j] == m[j + 1]);
        }
        lemma_tinsert_at(t, k, v, i - 1);
        if i < m.len() && m[i].0 == k {
            assert(m.update(i, (k, v)) =~= seq![m[0]] + t.update(i - 1, (k, v)));
        } else {
            assert(m.insert(i, (k, v)) =~= seq![m[0]] + t.insert(i - 1, (k, v)));
        }
    }
}

/// `k` set to `v` in a key-ordered table.
fn insert_entry(m: &mut Vec<(String, Value)>, k: String, v: Value)
    ensures
        entries_view(final(m)@) == tinsert(entries_view(old(m)@), k@, tview(v)),
{
    let ghost mv = entries_view(m@);
    let ghost kv = k@;
    let ghost vv = tview(v);
    let mut i: usize = 0;
    while i < m.len() && !text::same(m[i].0.as_str(), k.as_str()) && !text::less_str(
        k.as_str(),
        m[i].0.as_str(),
    )
        invariant
            i <= m@.len(),
            mv == entries_view(m@),
            kv == k@,
            forall|j: int| 0 <= j < i ==> (#[trigger] mv[j]).0 != kv && !text::seq_lt(kv, mv[j].0),
        decreases m@.len() - i,
    {
        i = i + 1;
    }
    proof {
        lemma_tinsert_at(mv, kv, vv, i as int);
    }
    if i < m.len() && text::same(m[i].0.as_str(), k.as_str()) {
        m.set(i, (k, v));
        proof {
            assert(entries_view(m@) =~= mv.update(i as int, (kv, vv)));
        }
    } else {
        m.insert(i, (k, v));
        proof {
            assert(entries_view(m@) =~= mv.insert(i as int, (kv, vv)));
        }
    }
}

proof fn lemma_tpos(m: Seq<(Seq<char>, TValue)>, k: Seq<char>, i: int)
    requires
        0 <= i <= m.len(),
        forall|j: int| 0 <= j < i ==> (#[trigger] m[j]).0 != k && !text::seq_lt(k, m[j].0),
        i < m.len() ==> (m[i].0 == k || text::seq_lt(k, m[i].0)),
    ensures
        tpos(m, k) == i,
    decreases m.len(),
{
    if m.len() > 0 && i > 0 {
        let t = m.drop_first();
        assert forall|j: int| 0 <= j < i - 1 implies (#[trigger] t[j]).0 != k && !text::seq_lt(k, t[j].0) by {
            assert(t[j] == m[j + 1]);
        }
        lemma_tpos(t, k, i - 1);
    }
}

/// Where `k` is, or goes, in the table, and whether it is there.
fn position(m: &Vec<(String, Value)>, k: &str) -> (r: (usize, bool))
    ensures
        r.0 == tpos(entries_view(m@), k@),
        r.0 <= m@.len(),
        r.1 == has_key(entries_view(m@), k@),
        r.1 ==> r.0 < m@.len() && m@[r.0 as int].0@ == k@,
{
    let ghost mv = entries_view(m@);
    let mut i: usize = 0;
    while i < m.len() && !text::same(m[i].0.as_str(), k) && !text::less_str(k, m[i].0.as_str())
        invariant
            i <= m@.len(),
            mv == entries_view(m@),
            forall|j: int| 0 <= j < i ==> (#[trigger] mv[j]).0 != k@ && !text::seq_lt(k@, mv[j].0),
        decreases m@.len() - i,
    {
        i = i + 1;
    }
    proof {
        lemma_tpos(mv, k@, i as int);
    }
    let found = i < m.len() && text::same(m[i].0.as_str(), k);
    (i, found)
}

/// Whether the table has a member called `k`.
fn has_entry(m: &Vec<(String, Value)>, k: &str) -> (r: bool)
    ensures
        r == has_key(entries_view(m@), k@),
{
    position(m, k).1
}

impl Parser {
    fn word(&self, p: usize, w: &str) -> (r: Result<usize>)
        requires
            self.ok(),
            p <= self.s@.len(),
        ensures
            match word_spec(self.s@, p as int, w@) {
                Ok(q) => r matches Ok(q2) && q2 == q,
                Err((x, at)) => r matches Err(e) && json::syntax_at(self.s@, x, at, e),
            },
            r matches Ok(q2) ==> q2 == p + w@.len() && q2 <= self.s@.len(),
    {
        if self.at(p, w) {
            let n = text::chars_of(w).len();
            return Ok(p + n);
        }
        let mut what = text::owned("expected `");
        text::append(&mut what, w);
        text::append(&mut what, "`");
        Err(self.err(what.as_str(), p))
    }

    fn integer(&self, p: usize) -> (r: Result<(i64, usize)>)
        requires
            self.ok(),
            p <= self.s@.len(),
        ensures
            match integer_spec(self.s@, p as int) {
                Ok((n, q)) => r matches Ok((m, q2)) && m == n && q2 == q && p < q2 <= self.s@.len(),
                Err((w, at)) => r matches Err(e) && json::syntax_at(self.s@, w, at, e),
            },
    {
        let s = &self.s;
        let len = s.len();
        let neg = p < len && s[p] == '-';
        let a = if p < len && (s[p] == '+' || s[p] == '-') {
            p + 1
        } else {
            p
        };
        if a + 1 < len && s[a] == '0' && (s[a + 1] == 'x' || s[a + 1] == 'X' || s[a + 1] == 'o'
            || s[a + 1] == 'O' || s[a + 1] == 'b' || s[a + 1] == 'B') {
            return Err(self.err("only decimal integers are supported", a));
        }
        let mut digits: Vec<char> = Vec::new();
        let mut e = a;
        loop
            invariant
                len == s@.len(),
                a <= e <= len,
                int_scan(s@, e as int, digits@) == int_scan(s@, a as int, seq![]),
                digits@.len() <= e - a,
            ensures
                a <= e <= len,
                int_scan(s@, a as int, seq![]) == (digits@, e as int),
                digits@.len() <= e - a,
            decreases len - e,
        {
            if e < len && '0' <= s[e] && s[e] <= '9' {
                digits.push(s[e]);
                e = e + 1;
            } else if e < len && s[e] == '_' && digits.len() > 0 && e + 1 < len && '0' <= s[e + 1]
                && s[e + 1] <= '9' {
                e = e + 1;
            } else {
                break;
            }
        }
        if digits.len() == 0 {
            return Err(self.err("expected a digit", e));
        }
        if e < len && (s[e] == '.' || s[e] == 'e' || s[e] == 'E') {
            return Err(self.err("floats are not part of the supported TOML subset", e));
        }
        if e < len && (s[e] == '-' || s[e] == ':') {
            return Err(self.err("dates and times are not part of the supported TOML subset", e));
        }
        if digits.len() > 1 && digits[0] == '0' {
            return Err(self.err("an integer may not have leading zeros", p));
        }
        let mut v: u128 = 0;
        for i in 0..digits.len()
            invariant
                v == if text::decimal_value(digits@.take(i as int)) < 0x10000000000000000 {
                    text::decimal_value(digits@.take(i as int))
                } else {
                    0x10000000000000000
                },
        {
            proof {
                assert(digits@.take(i + 1).drop_last() =~= digits@.take(i as int));
                assert(digits@.take(i + 1).last() == digits@[i as int]);
            }
            let c = digits[i];
            let d: u128 = if '0' <= c && c <= '9' {
                (c as u128) - 48
            } else {
                0
            };
            if v < 0x10000000000000000 {
                let next = v * 10 + d;
                v = if next >= 0x10000000000000000 {
                    0x10000000000000000
                } else {
                    next
                };
            }
        }
        proof {
            assert(digits@.take(digits@.len() as int) =~= digits@);
        }
        if neg {
            if v > 0x8000000000000000 {
                return Err(self.err("integer does not fit in 64 bits", p));
            }
            let n: i128 = 0 - (v as i128);
            Ok((n as i64, e))
        } else {
            if v > 0x7fffffffffffffff {
                return Err(self.err("integer does not fit in 64 bits", p));
            }
            Ok((v as i64, e))
        }
    }

    /// A value at `p`, `d` containers deep.
    fn value(&self, p: usize, d: u32) -> (r: Result<(Value, usize)>)
        requires
            self.ok(),
            p <= self.s@.len(),
            d <= MAX_DEPTH,
        ensures
            match value_spec(self.s@, p as int, d as int) {
                Ok((v, q)) => r matches Ok((x, q2)) && tview(x) == v && q2 == q,
                Err((w, at)) => r matches Err(e) && json::syntax_at(self.s@, w, at, e),
            },
            r matches Ok((_, q2)) ==> p < q2 <= self.s@.len(),
        decreases 2 * (MAX_DEPTH - d) + 1, self.s@.len() - p,
    {
        if p >= self.s.len() {
            return Err(self.err("unexpected end of input", p));
        }
        let c = self.s[p];
        if c == '"' || c == '\'' {
            let (t, q) = self.string(p)?;
            Ok((Value::String(t), q))
        } else if c == '[' {
            if d + 1 > MAX_DEPTH {
                return Err(self.err("nesting deeper than 64", p));
            }
            self.items(p, d + 1)
        } else if c == '{' {
            if d + 1 > MAX_DEPTH {
                return Err(self.err("nesting deeper than 64", p));
            }
            let q = self.spaces(p + 1);
            if q < self.s.len() && self.s[q] == '}' {
                let empty: Vec<(String, Value)> = Vec::new();
                proof {
                    lemma_tview_table(empty);
                    assert(entries_view(empty@) =~= seq![]);
                }
                return Ok((Value::Table(empty), q + 1));
            }
            self.inline(p, q, d + 1)
        } else if c == 't' {
            let q = self.word(p, "true")?;
            proof {
                reveal_strlit("true");
            }
            Ok((Value::Bool(true), q))
        } else if c == 'f' {
            let q = self.word(p, "false")?;
            proof {
                reveal_strlit("false");
            }
            Ok((Value::Bool(false), q))
        } else if c == '+' || c == '-' || ('0' <= c && c <= '9') {
            let (n, q) = self.integer(p)?;
            Ok((Value::Integer(n), q))
        } else {
            Err(self.err("expected a value", p))
        }
    }

    /// An array opened at `open`, `e` containers deep.
    fn items(&self, open: usize, e: u32) -> (r: Result<(Value, usize)>)
        requires
            self.ok(),
            open < self.s@.len(),
            1 <= e <= MAX_DEPTH,
        ensures
            match items_spec(self.s@, open as int, open + 1, e as int, seq![]) {
                Ok((v, q)) => r matches Ok((x, q2)) && tview(x) == v && q2 == q,
                Err((w, at)) => r matches Err(x) && json::syntax_at(self.s@, w, at, x),
            },
            r matches Ok((_, q2)) ==> open < q2 <= self.s@.len(),
        decreases 2 * (MAX_DEPTH - e) + 2, self.s@.len() - open,
    {
        let mut acc: Vec<Value> = Vec::new();
        let mut q = open + 1;
        proof {
            assert(tviews(acc@) =~= seq![]);
        }
        loop
            invariant
                self.ok(),
                open < q <= self.s@.len(),
                1 <= e <= MAX_DEPTH,
                items_spec(self.s@, open as int, q as int, e as int, tviews(acc@)) == items_spec(
                    self.s@,
                    open as int,
                    open + 1,
                    e as int,
                    seq![],
                ),
            decreases self.s@.len() - q,
        {
            let q1 = self.blank(q);
            if q1 < self.s.len() && self.s[q1] == ']' {
                proof {
                    lemma_tview_array(acc);
                }
                return Ok((Value::Array(acc), q1 + 1));
            }
            if q1 >= self.s.len() {
                return Err(self.err("unclosed array", open));
            }
            let (v, r) = self.value(q1, e)?;
            let r1 = self.blank(r);
            let ghost before = acc@;
            if r1 < self.s.len() && self.s[r1] == ',' {
                acc.push(v);
                proof {
                    assert(tviews(acc@) =~= tviews(before).push(tview(v)));
                }
                q = r1 + 1;
            } else if r1 < self.s.len() && self.s[r1] == ']' {
                acc.push(v);
                proof {
                    assert(tviews(acc@) =~= tviews(before).push(tview(v)));
                    lemma_tview_array(acc);
                }
                return Ok((Value::Array(acc), r1 + 1));
            } else if r1 >= self.s.len() {
                return Err(self.err("unclosed array", open));
            } else {
                return Err(self.err("expected ',' or ']'", r1));
            }
        }
    }

    /// Inline table members from `q`, the table opened at `open`.
    fn inline(&self, open: usize, q0: usize, e: u32) -> (r: Result<(Value, usize)>)
        requires
            self.ok(),
            open < q0 <= self.s@.len(),
            1 <= e <= MAX_DEPTH,
        ensures
            match inline_spec(self.s@, open as int, q0 as int, e as int, seq![]) {
                Ok((v, q)) => r matches Ok((x, q2)) && tview(x) == v && q2 == q,
                Err((w, at)) => r matches Err(x) && json::syntax_at(self.s@, w, at, x),
            },
            r matches Ok((_, q2)) ==> open < q2 <= self.s@.len(),
        decreases 2 * (MAX_DEPTH - e) + 2, self.s@.len() - open,
    {
        let mut acc: Vec<(String, Value)> = Vec::new();
        let mut q = q0;
        proof {
            assert(entries_view(acc@) =~= seq![]);
        }
        loop
            invariant
                self.ok(),
                open < q <= self.s@.len(),
                1 <= e <= MAX_DEPTH,
                inline_spec(self.s@, open as int, q as int, e as int, entries_view(acc@)) == inline_spec(
                    self.s@,
                    open as int,
                    q0 as int,
                    e as int,
                    seq![],
                ),
            decreases self.s@.len() - q,
        {
            let k = self.spaces(q);
            if k < self.s.len() && (self.s[k] == '\n' || self.s[k] == '\r') {
                return Err(self.err("an inline table must fit on one line", k));
            }
            let (key, r) = self.key(k)?;
            let r1 = self.spaces(r);
            if r1 < self.s.len() && self.s[r1] == '.' {
                return Err(self.err("dotted keys are not part of the supported TOML subset", r1));
            }
            if !(r1 < self.s.len() && self.s[r1] == '=') {
                return Err(self.err("expected '='", r1));
            }
            let start = self.spaces(r1 + 1);
            let (v, t) = self.value(start, e)?;
            if has_entry(&acc, key.as_str()) {
                let mut what = text::owned("duplicate key `");
                text::append(&mut what, key.as_str());
                text::append(&mut what, "`");
                return Err(self.err(what.as_str(), k));
            }
            let t1 = self.spaces(t);
            insert_entry(&mut acc, key, v);
            if t1 < self.s.len() && self.s[t1] == ',' {
                q = t1 + 1;
            } else if t1 < self.s.len() && self.s[t1] == '}' {
                proof {
                    lemma_tview_table(acc);
                }
                return Ok((Value::Table(acc), t1 + 1));
            } else if t1 < self.s.len() && (self.s[t1] == '\n' || self.s[t1] == '\r') {
                return Err(self.err("an inline table must fit on one line", t1));
            } else if t1 >= self.s.len() {
                return Err(self.err("unclosed inline table", open));
            } else {
                return Err(self.err("expected ',' or '}'", t1));
            }
        }
    }
}

proof fn lemma_tpos_props(m: Seq<(Seq<char>, TValue)>, k: Seq<char>)
    ensures
        0 <= tpos(m, k) <= m.len(),
        forall|j: int| 0 <= j < tpos(m, k) ==> (#[trigger] m[j]).0 != k && !text::seq_lt(k, m[j].0),
        tpos(m, k) < m.len() ==> (m[tpos(m, k)].0 == k || text::seq_lt(k, m[tpos(m, k)].0)),
    decreases m.len(),
{
    if m.len() > 0 && !(m[0].0 == k || text::seq_lt(k, m[0].0)) {
        lemma_tpos_props(m.drop_first(), k);
        assert forall|j: int| 0 <= j < tpos(m, k) implies (#[trigger] m[j]).0 != k && !text::seq_lt(k, m[j].0) by {
            if j > 0 {
                assert(m[j] == m.drop_first()[j - 1]);
            }
        }
    }
}

/// Setting a key updates its member in place, or inserts it where it goes.
proof fn lemma_tinsert(m: Seq<(Seq<char>, TValue)>, k: Seq<char>, v: TValue)
    ensures
        tinsert(m, k, v) == if has_key(m, k) {
            m.update(tpos(m, k), (k, v))
        } else {
            m.insert(tpos(m, k), (k, v))
        },
{
    lemma_tpos_props(m, k);
    lemma_tinsert_at(m, k, v, tpos(m, k));
}

/// A table's keys, strictly in byte order: each once.
pub open spec fn keys_sorted(m: Seq<(Seq<char>, TValue)>) -> bool {
    forall|i: int, j: int| 0 <= i < j < m.len() ==> text::seq_lt(#[trigger] m[i].0, #[trigger] m[j].0)
}

/// Every key of `m` sorts after `b`.
pub open spec fn keys_above(m: Seq<(Seq<char>, TValue)>, b: Seq<char>) -> bool {
    forall|i: int| 0 <= i < m.len() ==> text::seq_lt(b, #[trigger] m[i].0)
}

proof fn lemma_tinsert_above(m: Seq<(Seq<char>, TValue)>, k: Seq<char>, v: TValue, b: Seq<char>)
    requires
        keys_above(m, b),
        text::seq_lt(b, k),
    ensures
        keys_above(tinsert(m, k, v), b),
    decreases m.len(),
{
    if m.len() > 0 && m[0].0 != k && !text::seq_lt(k, m[0].0) {
        let rest = m.drop_first();
        assert forall|i: int| 0 <= i < rest.len() implies text::seq_lt(b, #[trigger] rest[i].0) by {
            assert(rest[i] == m[i + 1]);
        }
        lemma_tinsert_above(rest, k, v, b);
        let t = tinsert(rest, k, v);
        assert forall|i: int| 0 <= i < tinsert(m, k, v).len() implies text::seq_lt(b, #[trigger] tinsert(m, k, v)[i].0) by {
            if i > 0 {
                assert(tinsert(m, k, v)[i] == t[i - 1]);
            }
        }
    } else if m.len() > 0 && m[0].0 == k {
        assert forall|i: int| 0 <= i < tinsert(m, k, v).len() implies text::seq_lt(b, #[trigger] tinsert(m, k, v)[i].0) by {
            if i > 0 {
                assert(tinsert(m, k, v)[i] == m[i]);
            }
        }
    } else if m.len() > 0 {
        assert forall|i: int| 0 <= i < tinsert(m, k, v).len() implies text::seq_lt(b, #[trigger] tinsert(m, k, v)[i].0) by {
            if i > 0 {
                assert(tinsert(m, k, v)[i] == m[i - 1]);
            }
        }
    }
}

/// Setting a key keeps a table in byte order, each key once; reading that
/// key gives back what was set, and every other key reads as it did.
pub proof fn lemma_set_then_get(m: Seq<(Seq<char>, TValue)>, k: Seq<char>, v: TValue, other: Seq<char>)
    requires
        keys_sorted(m),
    ensures
        keys_sorted(tinsert(m, k, v)),
        tget(tinsert(m, k, v), k) == Some(v),
        other != k ==> tget(tinsert(m, k, v), other) == tget(m, other),
    decreases m.len(),
{
    let r = tinsert(m, k, v);
    text::lemma_lt_irreflexive(k);
    text::lemma_lt_total(k, other);
    if m.len() == 0 {
        text::lemma_lt_asymmetric(k, other);
    } else {
        let rest = m.drop_first();
        let h = m[0].0;
        text::lemma_lt_total(k, h);
        text::lemma_lt_total(other, h);
        text::lemma_lt_irreflexive(h);
        text::lemma_lt_irreflexive(other);
        assert forall|i: int, j: int| 0 <= i < j < rest.len() implies text::seq_lt(#[trigger] rest[i].0, #[trigger] rest[j].0) by {
            assert(rest[i] == m[i + 1] && rest[j] == m[j + 1]);
        }
        assert forall|i: int| 0 <= i < rest.len() implies text::seq_lt(h, #[trigger] rest[i].0) by {
            assert(rest[i] == m[i + 1]);
        }
        if h == k {
            assert(r == seq![(k, v)] + rest);
            assert(r.drop_first() =~= rest);
            assert forall|i: int, j: int| 0 <= i < j < r.len() implies text::seq_lt(#[trigger] r[i].0, #[trigger] r[j].0) by {
                if i > 0 {
                    assert(r[i] == m[i] && r[j] == m[j]);
                } else {
                    assert(r[j] == m[j]);
                }
            }
        } else if text::seq_lt(k, h) {
            assert(r == seq![(k, v)] + m);
            assert(r.drop_first() =~= m);
            assert forall|i: int, j: int| 0 <= i < j < r.len() implies text::seq_lt(#[trigger] r[i].0, #[trigger] r[j].0) by {
                if i > 0 {
                    assert(r[i] == m[i - 1] && r[j] == m[j - 1]);
                } else {
                    assert(r[j] == m[j - 1]);
                    if j > 1 {
                        text::lemma_lt_transitive(k, h, m[j - 1].0);
                    }
                }
            }
            if other != k && text::seq_lt(other, k) {
                text::lemma_lt_transitive(other, k, h);
                text::lemma_lt_asymmetric(other, h);
            }
            if other != k && !text::seq_lt(other, k) {
                text::lemma_lt_asymmetric(k, other);
            }
        } else {
            lemma_set_then_get(rest, k, v, other);
            let t = tinsert(rest, k, v);
            assert(r == seq![m[0]] + t);
            assert(r.drop_first() =~= t);
            text::lemma_lt_asymmetric(h, k);
            lemma_tinsert_above(rest, k, v, h);
            assert forall|i: int, j: int| 0 <= i < j < r.len() implies text::seq_lt(#[trigger] r[i].0, #[trigger] r[j].0) by {
                assert(r[j] == t[j - 1]);
                if i > 0 {
                    assert(r[i] == t[i - 1]);
                }
            }
        }
    }
}

/// A step of a canonical path.
pub enum SegX {
    Key(String),
    Index(usize),
}

pub open spec fn seg_view(s: SegX) -> Seg {
    match s {
        SegX::Key(k) => Seg::Key(k@),
        SegX::Index(n) => Seg::Index(n as int),
    }
}

pub open spec fn segs(c: Seq<SegX>) -> Seq<Seg> {
    c.map_values(|s: SegX| seg_view(s))
}

pub open spec fn keys_view(path: Seq<String>) -> Seq<Seq<char>> {
    path.map_values(|k: String| k@)
}

proof fn lemma_reach_fresh(path: Seq<Seq<char>>)
    ensures
        reach(Seq::<(Seq<char>, TValue)>::empty(), path) == Some::<(Seq<(Seq<char>, TValue)>, Seq<Seg>)>(
            (seq![], path.map_values(|k: Seq<char>| Seg::Key(k))),
        ),
    decreases path.len(),
{
    if path.len() > 0 {
        lemma_reach_fresh(path.drop_first());
        assert(tget(Seq::<(Seq<char>, TValue)>::empty(), path[0]) is None);
        assert(seq![Seg::Key(path[0])] + path.drop_first().map_values(|k: Seq<char>| Seg::Key(k))
            =~= path.map_values(|k: Seq<char>| Seg::Key(k)));
    } else {
        assert(path.map_values(|k: Seq<char>| Seg::Key(k)) =~= seq![]);
    }
}

fn key_segs(path: &Vec<String>, i: usize) -> (c: Vec<SegX>)
    requires
        i <= path@.len(),
    ensures
        segs(c@) == keys_view(path@).skip(i as int).map_values(|k: Seq<char>| Seg::Key(k)),
{
    let mut c: Vec<SegX> = Vec::new();
    let mut j = i;
    while j < path.len()
        invariant
            i <= j <= path@.len(),
            segs(c@) == keys_view(path@).subrange(i as int, j as int).map_values(|k: Seq<char>| Seg::Key(k)),
        decreases path@.len() - j,
    {
        let ghost before = c@;
        c.push(SegX::Key(path[j].clone()));
        proof {
            assert(segs(c@) =~= segs(before).push(Seg::Key(path@[j as int]@)));
            assert(keys_view(path@).subrange(i as int, j + 1).map_values(|k: Seq<char>| Seg::Key(k))
                =~= keys_view(path@).subrange(i as int, j as int).map_values(|k: Seq<char>| Seg::Key(k)).push(
                Seg::Key(path@[j as int]@),
            ));
        }
        j = j + 1;
    }
    proof {
        assert(keys_view(path@).subrange(i as int, path@.len() as int) =~= keys_view(path@).skip(i as int));
    }
    c
}

/// The table `path[i..]` reaches from `t` without changing anything: `None`
/// inside when it does not exist yet and would be created empty, and its
/// canonical path.
fn walk_to<'a>(t: &'a Vec<(String, Value)>, path: &Vec<String>, i: usize) -> (r: Option<
    (Option<&'a Vec<(String, Value)>>, Vec<SegX>),
>)
    requires
        i <= path@.len(),
    ensures
        match reach(entries_view(t@), keys_view(path@).skip(i as int)) {
            None => r is None,
            Some((x, c)) => r matches Some((tb, cv)) && segs(cv@) == c && match tb {
                Some(tt) => entries_view(tt@) == x,
                None => x == Seq::<(Seq<char>, TValue)>::empty(),
            },
        },
    decreases path@.len() - i,
{
    let ghost rest = keys_view(path@).skip(i as int);
    if i == path.len() {
        proof {
            assert(rest =~= seq![]);
        }
        return Some((Some(t), Vec::new()));
    }
    proof {
        assert(rest[0] == path@[i as int]@);
        assert(rest.drop_first() =~= keys_view(path@).skip(i + 1));
    }
    let (j, found) = position(t, path[i].as_str());
    if !found {
        proof {
            lemma_reach_fresh(rest.drop_first());
        }
        let mut c = key_segs(path, i + 1);
        let ghost tail = c@;
        c.insert(0, SegX::Key(path[i].clone()));
        proof {
            assert(segs(c@) =~= seq![Seg::Key(rest[0])] + segs(tail));
        }
        return Some((None, c));
    }
    proof {
        assert(entries_view(t@)[j as int] == (t@[j as int].0@, tview(t@[j as int].1)));
    }
    match &t[j].1 {
        Value::Table(sub) => {
            proof {
                lemma_tview_table(*sub);
            }
            match walk_to(sub, path, i + 1) {
                None => None,
                Some((tb, mut c)) => {
                    let ghost tail = c@;
                    c.insert(0, SegX::Key(path[i].clone()));
                    proof {
                        assert(segs(c@) =~= seq![Seg::Key(rest[0])] + segs(tail));
                    }
                    Some((tb, c))
                },
            }
        },
        Value::Array(items) => {
            proof {
                lemma_tview_array(*items);
            }
            let n = items.len();
            if n == 0 {
                return None;
            }
            proof {
                assert(tviews(items@).last() == tview(items@[n - 1]));
            }
            match &items[n - 1] {
                Value::Table(sub) => {
                    proof {
                        lemma_tview_table(*sub);
                    }
                    match walk_to(sub, path, i + 1) {
                        None => None,
                        Some((tb, mut c)) => {
                            let ghost tail = c@;
                            c.insert(0, SegX::Index(n - 1));
                            c.insert(0, SegX::Key(path[i].clone()));
                            proof {
                                assert(segs(c@) =~= seq![Seg::Key(rest[0]), Seg::Index(n - 1)] + segs(tail));
                            }
                            Some((tb, c))
                        },
                    }
                },
                _ => None,
            }
        },
        _ => None,
    }
}

/// The table `path` reaches from `t`, or none.
pub open spec fn reached(t: Seq<(Seq<char>, TValue)>, path: Seq<Seq<char>>) -> Seq<(Seq<char>, TValue)> {
    match reach(t, path) {
        Some((x, _)) => x,
        None => seq![],
    }
}

/// What a statement does to the table it reaches.
pub enum Op {
    /// A header names it; nothing more.
    Touch,
    /// `key = value`.
    Put(String, Value),
    /// `[[key]]` pushes a fresh table onto the array `key`.
    Push(String),
}

pub open spec fn op_out(x: Seq<(Seq<char>, TValue)>, op: Op) -> Seq<(Seq<char>, TValue)> {
    match op {
        Op::Touch => x,
        Op::Put(k, v) => tinsert(x, k@, tview(v)),
        Op::Push(last) => match tget(x, last@) {
            Some(TValue::Array(items)) => tinsert(x, last@, TValue::Array(items.push(TValue::Table(seq![])))),
            None => tinsert(x, last@, TValue::Array(seq![TValue::Table(seq![])])),
            _ => x,
        },
    }
}

/// `op` done at the table reached.
fn apply_here(t: &mut Vec<(String, Value)>, op: Op)
    ensures
        entries_view(final(t)@) == op_out(entries_view(old(t)@), op),
{
    match op {
        Op::Touch => {},
        Op::Put(k, v) => insert_entry(t, k, v),
        Op::Push(last) => {
            let ghost x = entries_view(t@);
            let (j, found) = position(t, last.as_str());
            proof {
                lemma_tinsert(x, last@, TValue::Array(seq![TValue::Table(seq![])]));
            }
            if found {
                let (key, v) = t.remove(j);
                proof {
                    assert(x[j as int] == (key@, tview(v)));
                }
                match v {
                    Value::Array(mut items) => {
                        proof {
                            lemma_tview_array(items);
                        }
                        let ghost iv = tviews(items@);
                        let fresh: Vec<(String, Value)> = Vec::new();
                        items.push(Value::Table(fresh));
                        proof {
                            lemma_tview_table(fresh);
                            assert(entries_view(fresh@) =~= seq![]);
                            assert(tviews(items@) =~= iv.push(TValue::Table(seq![])));
                            lemma_tview_array(items);
                            lemma_tinsert(x, last@, TValue::Array(iv.push(TValue::Table(seq![]))));
                        }
                        t.insert(j, (key, Value::Array(items)));
                        proof {
                            assert(entries_view(t@) =~= x.update(j as int, (last@, TValue::Array(iv.push(TValue::Table(seq![]))))));
                        }
                    },
                    other => {
                        t.insert(j, (key, other));
                        proof {
                            assert(entries_view(t@) =~= x);
                        }
                    },
                }
            } else {
                let fresh: Vec<(String, Value)> = Vec::new();
                let mut items: Vec<Value> = Vec::new();
                items.push(Value::Table(fresh));
                proof {
                    lemma_tview_table(fresh);
                    assert(entries_view(fresh@) =~= seq![]);
                    lemma_tview_array(items);
                    assert(tviews(items@) =~= seq![TValue::Table(seq![])]);
                }
                t.insert(j, (last, Value::Array(items)));
                proof {
                    assert(entries_view(t@) =~= x.insert(j as int, (last@, TValue::Array(seq![TValue::Table(seq![])]))));
                }
            }
        },
    }
}

/// `op` done at the table `path[i..]` reaches from `t`, creating the tables
/// on the way.
fn apply(t: &mut Vec<(String, Value)>, path: &Vec<String>, i: usize, op: Op)
    requires
        i <= path@.len(),
        reach(entries_view(old(t)@), keys_view(path@).skip(i as int)) is Some,
    ensures
        entries_view(final(t)@) == set_at(
            entries_view(old(t)@),
            keys_view(path@).skip(i as int),
            op_out(reached(entries_view(old(t)@), keys_view(path@).skip(i as int)), op),
        ),
    decreases path@.len() - i,
{
    let ghost x = entries_view(t@);
    let ghost rest = keys_view(path@).skip(i as int);
    if i == path.len() {
        proof {
            assert(rest =~= seq![]);
        }
        apply_here(t, op);
        return;
    }
    proof {
        assert(rest[0] == path@[i as int]@);
        assert(rest.drop_first() =~= keys_view(path@).skip(i + 1));
    }
    let (j, found) = position(t, path[i].as_str());
    let k = path[i].clone();
    if !found {
        let fresh: Vec<(String, Value)> = Vec::new();
        let mut sub = fresh;
        proof {
            lemma_reach_fresh(rest.drop_first());
            assert(entries_view(sub@) =~= seq![]);
        }
        apply(&mut sub, path, i + 1, op);
        proof {
            lemma_tview_table(sub);
        }
        let ghost nv = TValue::Table(entries_view(sub@));
        t.insert(j, (k, Value::Table(sub)));
        proof {
            lemma_tinsert(x, rest[0], nv);
            assert(entries_view(t@) =~= x.insert(j as int, (rest[0], nv)));
        }
        return;
    }
    let (key, v) = t.remove(j);
    proof {
        assert(x[j as int] == (key@, tview(v)));
        assert(key@ == rest[0]);
    }
    match v {
        Value::Table(mut sub) => {
            proof {
                lemma_tview_table(sub);
            }
            apply(&mut sub, path, i + 1, op);
            proof {
                lemma_tview_table(sub);
            }
            let ghost nv = TValue::Table(entries_view(sub@));
            t.insert(j, (key, Value::Table(sub)));
            proof {
                lemma_tinsert(x, rest[0], nv);
                assert(entries_view(t@) =~= x.update(j as int, (rest[0], nv)));
            }
        },
        Value::Array(mut items) => {
            proof {
                lemma_tview_array(items);
            }
            let ghost iv = tviews(items@);
            let n = items.len();
            let last = items.pop();
            match last {
                Some(Value::Table(mut sub)) => {
                    proof {
                        assert(iv.last() == tview(Value::Table(sub)));
                        lemma_tview_table(sub);
                    }
                    apply(&mut sub, path, i + 1, op);
                    proof {
                        lemma_tview_table(sub);
                    }
                    let ghost nt = TValue::Table(entries_view(sub@));
                    items.push(Value::Table(sub));
                    proof {
                        assert(tviews(items@) =~= iv.update(n - 1, nt));
                        lemma_tview_array(items);
                    }
                    let ghost nv = TValue::Array(tviews(items@));
                    t.insert(j, (key, Value::Array(items)));
                    proof {
                        lemma_tinsert(x, rest[0], nv);
                        assert(entries_view(t@) =~= x.update(j as int, (rest[0], nv)));
                    }
                },
                _ => {
                    proof {
                        assert(false);
                    }
                },
            }
        },
        _ => {
            proof {
                assert(false);
            }
        },
    }
}

/// The paths a list holds.
pub open spec fn paths_set(v: Seq<Vec<SegX>>) -> Set<Seq<Seg>> {
    Set::new(|c: Seq<Seg>| exists|i: int| 0 <= i < v.len() && segs((#[trigger] v[i])@) == c)
}

proof fn lemma_paths_push(v: Seq<Vec<SegX>>, x: Vec<SegX>)
    ensures
        paths_set(v.push(x)) == paths_set(v).insert(segs(x@)),
{
    assert forall|c: Seq<Seg>| paths_set(v.push(x)).contains(c) <==> paths_set(v).insert(segs(x@)).contains(c) by {
        if paths_set(v.push(x)).contains(c) {
            let i = choose|i: int| 0 <= i < v.push(x).len() && segs((#[trigger] v.push(x)[i])@) == c;
            if i < v.len() {
                assert(v.push(x)[i] == v[i]);
            }
        }
        if paths_set(v).contains(c) {
            let i = choose|i: int| 0 <= i < v.len() && segs((#[trigger] v[i])@) == c;
            assert(v.push(x)[i] == v[i]);
        }
        if c == segs(x@) {
            assert(v.push(x)[v.len() as int] == x);
        }
    }
    assert(paths_set(v.push(x)) =~= paths_set(v).insert(segs(x@)));
}

fn seg_same(a: &SegX, b: &SegX) -> (r: bool)
    ensures
        r == (seg_view(*a) == seg_view(*b)),
{
    match (a, b) {
        (SegX::Key(x), SegX::Key(y)) => text::same(x.as_str(), y.as_str()),
        (SegX::Index(x), SegX::Index(y)) => *x == *y,
        _ => false,
    }
}

/// Whether `a` is the first `n` steps of `c`.
fn is_prefix(a: &Vec<SegX>, c: &Vec<SegX>, n: usize) -> (r: bool)
    requires
        n <= c@.len(),
    ensures
        r == (segs(a@) == segs(c@).take(n as int)),
{
    if a.len() != n {
        proof {
            assert(segs(a@).len() != segs(c@).take(n as int).len());
        }
        return false;
    }
    for i in 0..n
        invariant
            a@.len() == n,
            n <= c@.len(),
            forall|j: int| 0 <= j < i ==> seg_view(#[trigger] a@[j]) == seg_view(c@[j]),
    {
        if !seg_same(&a[i], &c[i]) {
            proof {
                assert(segs(a@)[i as int] != segs(c@).take(n as int)[i as int]);
            }
            return false;
        }
    }
    proof {
        assert(segs(a@) =~= segs(c@).take(n as int));
    }
    true
}

fn holds(list: &Vec<Vec<SegX>>, c: &Vec<SegX>, n: usize) -> (r: bool)
    requires
        n <= c@.len(),
    ensures
        r == paths_set(list@).contains(segs(c@).take(n as int)),
{
    for i in 0..list.len()
        invariant
            n <= c@.len(),
            forall|j: int| 0 <= j < i ==> segs((#[trigger] list@[j])@) != segs(c@).take(n as int),
    {
        if is_prefix(&list[i], c, n) {
            return true;
        }
    }
    false
}

/// The length of the shortest prefix of `c` that was sealed.
fn sealed_len(sealed: &Vec<Vec<SegX>>, c: &Vec<SegX>) -> (r: Option<usize>)
    ensures
        match sealed_from(paths_set(sealed@), segs(c@), 1) {
            None => r is None,
            Some(x) => r matches Some(n) && 1 <= n <= c@.len() && x == segs(c@).take(n as int),
        },
{
    let len = c.len();
    let mut k: usize = 0;
    while k < len
        invariant
            len == c@.len(),
            k <= len,
            sealed_from(paths_set(sealed@), segs(c@), 1) == sealed_from(paths_set(sealed@), segs(c@), k + 1),
        decreases len - k,
    {
        if holds(sealed, c, k + 1) {
            return Some(k + 1);
        }
        k = k + 1;
    }
    None
}

/// The first `n` steps of `c`, spelled as a file spells them.
fn show_of(c: &Vec<SegX>, n: usize) -> (s: String)
    requires
        n <= c@.len(),
    ensures
        s@ == show(segs(c@).take(n as int)),
{
    let mut s = String::new();
    for k in 0..n
        invariant
            n <= c@.len(),
            s@ == show(segs(c@).take(k as int)),
    {
        proof {
            assert(segs(c@).take(k + 1).drop_last() =~= segs(c@).take(k as int));
            assert(segs(c@).take(k + 1).last() == seg_view(c@[k as int]));
        }
        match &c[k] {
            SegX::Key(key) => {
                if k > 0 {
                    text::append(&mut s, ".");
                }
                text::append(&mut s, key.as_str());
            },
            SegX::Index(i) => {
                text::append(&mut s, "[");
                text::append(&mut s, text::decimal_of(*i as u64).as_str());
                text::append(&mut s, "]");
            },
        }
        proof {
            reveal_strlit(".");
            reveal_strlit("[");
            reveal_strlit("]");
        }
    }
    s
}

/// The first `n` keys of `path`.
fn keys_take(path: &Vec<String>, n: usize) -> (r: Vec<String>)
    requires
        n <= path@.len(),
    ensures
        keys_view(r@) == keys_view(path@).take(n as int),
{
    let mut r: Vec<String> = Vec::new();
    for i in 0..n
        invariant
            n <= path@.len(),
            keys_view(r@) == keys_view(path@).take(i as int),
    {
        let ghost before = r@;
        r.push(path[i].clone());
        proof {
            assert(keys_view(r@) =~= keys_view(before).push(path@[i as int]@));
            assert(keys_view(path@).take(i + 1) =~= keys_view(path@).take(i as int).push(path@[i as int]@));
        }
    }
    r
}

/// `path` joined with dots.
fn dotted_of(path: &Vec<String>) -> (r: String)
    ensures
        r@ == dotted(keys_view(path@)),
{
    let mut r = String::new();
    for i in 0..path.len()
        invariant
            r@ == text::join(keys_view(path@).take(i as int), "."@),
    {
        proof {
            let t = keys_view(path@).take(i + 1);
            assert(t.drop_last() =~= keys_view(path@).take(i as int));
            assert(t.last() == path@[i as int]@);
            if i == 0 {
                assert(text::join(keys_view(path@).take(0), "."@) =~= seq![]);
            }
        }
        if i > 0 {
            text::append(&mut r, ".");
        }
        text::append(&mut r, path[i].as_str());
        proof {
            if i == 0 {
                assert(r@ =~= keys_view(path@).take(1)[0]);
            }
        }
    }
    proof {
        assert(keys_view(path@).take(path@.len() as int) =~= keys_view(path@));
    }
    r
}

/// `a`, then `b`, then `c`.
fn three(a: &str, b: &str, c: &str) -> (r: String)
    ensures
        r@ == a@ + b@ + c@,
{
    let mut r = text::owned(a);
    text::append(&mut r, b);
    text::append(&mut r, c);
    r
}

/// The reader's state between statements.
struct State {
    root: Vec<(String, Value)>,
    defined: Vec<Vec<SegX>>,
    sealed: Vec<Vec<SegX>>,
    path: Vec<String>,
}

spec fn doc_of(st: State) -> Doc {
    Doc {
        root: entries_view(st.root@),
        defined: paths_set(st.defined@),
        sealed: paths_set(st.sealed@),
        path: keys_view(st.path@),
    }
}

impl Parser {
    /// The dotted keys of a header from `q0`, and where they end.
    fn header_path(&self, q0: usize) -> (r: Result<(Vec<String>, usize)>)
        requires
            self.ok(),
            q0 <= self.s@.len(),
        ensures
            match header_keys(self.s@, q0 as int, 0, seq![]) {
                Ok((ks, e)) => r matches Ok((v, e2)) && keys_view(v@) == ks && e2 == e && v@.len() >= 1
                    && q0 < e2 <= self.s@.len(),
                Err((w, at)) => r matches Err(e) && json::syntax_at(self.s@, w, at, e),
            },
    {
        let mut acc: Vec<String> = Vec::new();
        let mut q = q0;
        let mut d: u32 = 0;
        proof {
            assert(keys_view(acc@) =~= seq![]);
        }
        loop
            invariant
                self.ok(),
                q0 <= q <= self.s@.len(),
                d <= MAX_DEPTH,
                acc@.len() == d,
                header_keys(self.s@, q0 as int, 0, seq![]) == header_keys(
                    self.s@,
                    q as int,
                    d as int,
                    keys_view(acc@),
                ),
            decreases self.s@.len() - q,
        {
            let q1 = self.spaces(q);
            if d + 1 > MAX_DEPTH {
                return Err(self.err("nesting deeper than 64", q1));
            }
            match self.key(q1) {
                Err(e) => {
                    return Err(e);
                },
                Ok((k, r)) => {
                    let r1 = self.spaces(r);
                    let ghost before = keys_view(acc@);
                    let ghost kv = k@;
                    acc.push(k);
                    proof {
                        assert(keys_view(acc@) =~= before.push(kv));
                    }
                    if r1 < self.s.len() && self.s[r1] == '.' {
                        q = r1 + 1;
                        d = d + 1;
                    } else {
                        return Ok((acc, r1));
                    }
                },
            }
        }
    }
}

impl Parser {
    /// `[[path]]` at `at`.
    fn open_array(&self, at: usize, st: &mut State, path: Vec<String>) -> (r: Result<()>)
        requires
            self.ok(),
            at <= self.s@.len(),
            path@.len() >= 1,
        ensures
            match array_header(doc_of(*old(st)), keys_view(path@), at as int) {
                Ok(d) => r is Ok && doc_of(*final(st)) == d,
                Err((w, a)) => r matches Err(e) && json::syntax_at(self.s@, w, a, e),
            },
    {
        let ghost d0 = doc_of(*st);
        let ghost pk = keys_view(path@);
        let n = path.len();
        let parents = keys_take(&path, n - 1);
        let last = path[n - 1].clone();
        proof {
            assert(keys_view(parents@) =~= pk.drop_last());
            assert(keys_view(parents@).skip(0) =~= keys_view(parents@));
        }
        let w = walk_to(&st.root, &parents, 0);
        let (tb, mut c) = match w {
            None => {
                return Err(self.err("this header sits under a non-table", at));
            },
            Some(x) => x,
        };
        let ghost parent = reached(d0.root, pk.drop_last());
        let ghost c0 = segs(c@);
        c.push(SegX::Key(last.clone()));
        proof {
            assert(segs(c@) =~= c0.push(Seg::Key(last@)));
        }
        match sealed_len(&st.sealed, &c) {
            Some(k) => {
                let shown = show_of(&c, k);
                let m = three("`", shown.as_str(), "` is already defined as a value, not an array of tables");
                return Err(self.err(m.as_str(), at));
            },
            None => {},
        }
        let count: Option<usize> = match tb {
            None => None,
            Some(t) => {
                let (j, found) = position(t, last.as_str());
                if !found {
                    None
                } else {
                    proof {
                        assert(entries_view(t@)[j as int] == (t@[j as int].0@, tview(t@[j as int].1)));
                    }
                    match &t[j].1 {
                        Value::Array(items) => {
                            proof {
                                lemma_tview_array(*items);
                            }
                            Some(items.len())
                        },
                        _ => {
                            let m = three("`", last.as_str(), "` is already a table, not an array");
                            return Err(self.err(m.as_str(), at));
                        },
                    }
                }
            },
        };
        proof {
            match count {
                None => assert(tget(parent, last@) is None),
                Some(k) => assert(tget(parent, last@) matches Some(TValue::Array(items)) && items.len() == k),
            }
        }
        let items_len: usize = match count {
            Some(k) => k,
            None => 0,
        };
        apply(&mut st.root, &parents, 0, Op::Push(last));
        let ghost cl = segs(c@);
        c.push(SegX::Index(items_len));
        proof {
            assert(segs(c@) =~= cl.push(Seg::Index(items_len as int)));
            lemma_paths_push(st.defined@, c);
        }
        st.defined.push(c);
        st.path = path;
        Ok(())
    }

    /// `[path]` at `at`.
    fn open_table(&self, at: usize, st: &mut State, path: Vec<String>) -> (r: Result<()>)
        requires
            self.ok(),
            at <= self.s@.len(),
        ensures
            match table_header(doc_of(*old(st)), keys_view(path@), at as int) {
                Ok(d) => r is Ok && doc_of(*final(st)) == d,
                Err((w, a)) => r matches Err(e) && json::syntax_at(self.s@, w, a, e),
            },
    {
        proof {
            assert(keys_view(path@).skip(0) =~= keys_view(path@));
        }
        let w = walk_to(&st.root, &path, 0);
        let c = match w {
            None => {
                return Err(self.err("this header sits under a non-table", at));
            },
            Some((_, c)) => c,
        };
        match sealed_len(&st.sealed, &c) {
            Some(k) => {
                let shown = show_of(&c, k);
                let m = three("`", shown.as_str(), "` is already defined as a value, not a table");
                return Err(self.err(m.as_str(), at));
            },
            None => {},
        }
        proof {
            assert(segs(c@).take(c@.len() as int) =~= segs(c@));
        }
        if holds(&st.defined, &c, c.len()) {
            let d = dotted_of(&path);
            let m = three("table `", d.as_str(), "` is defined twice");
            return Err(self.err(m.as_str(), at));
        }
        apply(&mut st.root, &path, 0, Op::Touch);
        proof {
            lemma_paths_push(st.defined@, c);
        }
        st.defined.push(c);
        st.path = path;
        Ok(())
    }

    /// The header at `at`, and where its line ends.
    fn header(&self, at: usize, st: &mut State) -> (r: Result<usize>)
        requires
            self.ok(),
            at < self.s@.len(),
        ensures
            match header_spec(self.s@, at as int, doc_of(*old(st))) {
                Ok((d, end)) => r matches Ok(e) && e == end && doc_of(*final(st)) == d,
                Err((w, a)) => r matches Err(e) && json::syntax_at(self.s@, w, a, e),
            },
            r matches Ok(e) ==> at < e <= self.s@.len(),
    {
        let array = at + 1 < self.s.len() && self.s[at + 1] == '[';
        let q = if array {
            at + 2
        } else {
            at + 1
        };
        let (path, r) = match self.header_path(q) {
            Ok(x) => x,
            Err(e) => {
                return Err(e);
            },
        };
        if !(r < self.s.len() && self.s[r] == ']') {
            return Err(self.err("expected ']'", r));
        }
        if array && !(r + 1 < self.s.len() && self.s[r + 1] == ']') {
            return Err(self.err("expected ']'", r + 1));
        }
        let end = match self.eol(
            if array {
                r + 2
            } else {
                r + 1
            },
        ) {
            Ok(x) => x,
            Err(e) => {
                return Err(e);
            },
        };
        let done = if array {
            self.open_array(at, st, path)
        } else {
            self.open_table(at, st, path)
        };
        match done {
            Ok(()) => Ok(end),
            Err(e) => Err(e),
        }
    }

    /// The `key = value` line at `at`, and where it ends.
    fn statement(&self, at: usize, st: &mut State) -> (r: Result<usize>)
        requires
            self.ok(),
            at <= self.s@.len(),
        ensures
            match statement_spec(self.s@, at as int, doc_of(*old(st))) {
                Ok((d, end)) => r matches Ok(e) && e == end && doc_of(*final(st)) == d,
                Err((w, a)) => r matches Err(e) && json::syntax_at(self.s@, w, a, e),
            },
            r matches Ok(e) ==> at < e <= self.s@.len(),
    {
        let ghost d0 = doc_of(*st);
        let (key, r) = match self.key(at) {
            Ok(x) => x,
            Err(e) => {
                return Err(e);
            },
        };
        let r1 = self.spaces(r);
        if r1 < self.s.len() && self.s[r1] == '.' {
            return Err(self.err("dotted keys are not part of the supported TOML subset", r1));
        }
        if !(r1 < self.s.len() && self.s[r1] == '=') {
            return Err(self.err("expected '='", r1));
        }
        let (v, t) = match self.value(self.spaces(r1 + 1), 0) {
            Ok(x) => x,
            Err(e) => {
                return Err(e);
            },
        };
        let end = match self.eol(t) {
            Ok(x) => x,
            Err(e) => {
                return Err(e);
            },
        };
        proof {
            assert(keys_view(st.path@).skip(0) =~= keys_view(st.path@));
        }
        let w = walk_to(&st.root, &st.path, 0);
        let (tb, mut c) = match w {
            None => {
                return Err(self.err("this key sits under a non-table", at));
            },
            Some(x) => x,
        };
        let has = match tb {
            None => false,
            Some(t) => has_entry(t, key.as_str()),
        };
        if has {
            let m = three("duplicate key `", key.as_str(), "`");
            return Err(self.err(m.as_str(), at));
        }
        let ghost c0 = segs(c@);
        c.push(SegX::Key(key.clone()));
        proof {
            assert(segs(c@) =~= c0.push(Seg::Key(key@)));
            lemma_paths_push(st.sealed@, c);
        }
        apply(&mut st.root, &st.path, 0, Op::Put(key, v));
        st.sealed.push(c);
        Ok(end)
    }

    /// The whole document.
    fn document(&self) -> (r: Result<Vec<(String, Value)>>)
        requires
            self.ok(),
        ensures
            match doc_spec(self.s@, 0, start_doc()) {
                Ok(root) => r matches Ok(t) && entries_view(t@) == root,
                Err((w, a)) => r matches Err(e) && json::syntax_at(self.s@, w, a, e),
            },
    {
        let mut st = State { root: Vec::new(), defined: Vec::new(), sealed: Vec::new(), path: Vec::new() };
        proof {
            assert(entries_view(st.root@) =~= seq![]);
            assert(paths_set(st.defined@) =~= Set::empty());
            assert(paths_set(st.sealed@) =~= Set::empty());
            assert(keys_view(st.path@) =~= seq![]);
        }
        let mut q: usize = 0;
        loop
            invariant
                self.ok(),
                q <= self.s@.len(),
                doc_spec(self.s@, 0, start_doc()) == doc_spec(self.s@, q as int, doc_of(st)),
            decreases self.s@.len() - q,
        {
            let q1 = self.blank(q);
            if q1 >= self.s.len() {
                return Ok(st.root);
            }
            let next = if self.s[q1] == '[' {
                self.header(q1, &mut st)
            } else {
                self.statement(q1, &mut st)
            };
            match next {
                Err(e) => {
                    return Err(e);
                },
                Ok(end) => {
                    q = end;
                },
            }
        }
    }
}

/// Nothing read yet.
pub open spec fn start_doc() -> Doc {
    Doc { root: seq![], defined: Set::empty(), sealed: Set::empty(), path: seq![] }
}

/// `src` read as one TOML document: always a table.
pub fn parse(src: &str) -> (r: Result<Value>)
    requires
        src@.len() < u32::MAX,
    ensures
        parsed(src@, r),
        r matches Ok(v) ==> tsorted(tview(v)),
{
    let all = text::chars_of(src);
    let s = if all.len() > 0 && all[0] == '\u{feff}' {
        text::slice(&all, 1, all.len())
    } else {
        all
    };
    proof {
        assert(s@ =~= body(src@));
    }
    let p = Parser { s };
    let root = p.document()?;
    proof {
        lemma_tview_table(root);
        lemma_parsed_sorted(src@);
    }
    Ok(Value::Table(root))
}

impl Value {
    /// The member `key` of a table; `None` for a missing key or a non-table.
    pub fn get(&self, key: &str) -> (r: Option<&Value>)
        ensures
            match tview(*self) {
                TValue::Table(m) => match tget(m, key@) {
                    Some(v) => r matches Some(x) && tview(*x) == v,
                    None => r is None,
                },
                _ => r is None,
            },
    {
        match self {
            Value::Table(m) => {
                proof {
                    lemma_tview_table(*m);
                }
                let (j, found) = position(m, key);
                if found {
                    proof {
                        assert(entries_view(m@)[j as int] == (m@[j as int].0@, tview(m@[j as int].1)));
                    }
                    Some(&m[j].1)
                } else {
                    None
                }
            },
            _ => None,
        }
    }

    pub fn as_str(&self) -> (r: Option<&str>)
        ensures
            match tview(*self) {
                TValue::Str(s) => r matches Some(x) && x@ == s,
                _ => r is None,
            },
    {
        match self {
            Value::String(s) => Some(s.as_str()),
            _ => None,
        }
    }

    pub fn as_bool(&self) -> (r: Option<bool>)
        ensures
            match tview(*self) {
                TValue::Bool(b) => r == Some(b),
                _ => r is None,
            },
    {
        match self {
            Value::Bool(b) => Some(*b),
            _ => None,
        }
    }

    pub fn as_array(&self) -> (r: Option<&[Value]>)
        ensures
            match *self {
                Value::Array(items) => r matches Some(x) && x@ == items@,
                _ => r is None,
            },
    {
        match self {
            Value::Array(items) => Some(items.as_slice()),
            _ => None,
        }
    }

    /// The members of a table, keys in byte order, each once.
    pub fn as_table(&self) -> (r: Option<&Vec<(String, Value)>>)
        ensures
            match *self {
                Value::Table(m) => r matches Some(x) && x@ == m@,
                _ => r is None,
            },
    {
        match self {
            Value::Table(m) => Some(m),
            _ => None,
        }
    }
}

/// The member `k` of a value, when the value is a table.
pub open spec fn tfield(entry: TValue, k: Seq<char>) -> Option<TValue> {
    match entry {
        TValue::Table(m) => tget(m, k),
        _ => None,
    }
}

pub open spec fn tstr(v: Option<TValue>) -> Option<Seq<char>> {
    match v {
        Some(TValue::Str(s)) => Some(s),
        _ => None,
    }
}

pub open spec fn or_empty(v: Option<Seq<char>>) -> Seq<char> {
    match v {
        Some(s) => s,
        None => seq![],
    }
}

pub open spec fn tbool(v: Option<TValue>) -> Option<bool> {
    match v {
        Some(TValue::Bool(b)) => Some(b),
        _ => None,
    }
}

/// What reading `src` gives, before it is made a value: the document's
/// table, or the error's message and position in the body.
pub open spec fn parse_spec(src: Seq<char>) -> core::result::Result<Seq<(Seq<char>, TValue)>, (Seq<char>, int)> {
    doc_spec(body(src), 0, start_doc())
}

/// Every table in `v`, however deep, keeps its keys strictly in byte order:
/// what a `BTreeMap` would give, each key once.
pub open spec fn tsorted(v: TValue) -> bool
    decreases v,
{
    match v {
        TValue::Array(items) => forall|i: int| 0 <= i < items.len() ==> tsorted(#[trigger] items[i]),
        TValue::Table(m) => keys_sorted(m) && forall|i: int| 0 <= i < m.len() ==> tsorted(#[trigger] m[i].1),
        _ => true,
    }
}

pub open spec fn table_sorted(m: Seq<(Seq<char>, TValue)>) -> bool {
    keys_sorted(m) && forall|i: int| 0 <= i < m.len() ==> tsorted(#[trigger] m[i].1)
}

pub open spec fn items_sorted(items: Seq<TValue>) -> bool {
    forall|i: int| 0 <= i < items.len() ==> tsorted(#[trigger] items[i])
}

proof fn lemma_tinsert_values(m: Seq<(Seq<char>, TValue)>, k: Seq<char>, v: TValue)
    requires
        forall|i: int| 0 <= i < m.len() ==> tsorted(#[trigger] m[i].1),
        tsorted(v),
    ensures
        forall|i: int| 0 <= i < tinsert(m, k, v).len() ==> tsorted(#[trigger] tinsert(m, k, v)[i].1),
    decreases m.len(),
{
    let r = tinsert(m, k, v);
    if m.len() == 0 {
    } else if m[0].0 == k {
        assert forall|i: int| 0 <= i < r.len() implies tsorted(#[trigger] r[i].1) by {
            if i > 0 {
                assert(r[i] == m[i]);
            }
        }
    } else if text::seq_lt(k, m[0].0) {
        assert forall|i: int| 0 <= i < r.len() implies tsorted(#[trigger] r[i].1) by {
            if i > 0 {
                assert(r[i] == m[i - 1]);
            }
        }
    } else {
        let rest = m.drop_first();
        assert forall|i: int| 0 <= i < rest.len() implies tsorted(#[trigger] rest[i].1) by {
            assert(rest[i] == m[i + 1]);
        }
        lemma_tinsert_values(rest, k, v);
        let t = tinsert(rest, k, v);
        assert forall|i: int| 0 <= i < r.len() implies tsorted(#[trigger] r[i].1) by {
            if i > 0 {
                assert(r[i] == t[i - 1]);
            } else {
                assert(r[0] == m[0]);
            }
        }
    }
}

proof fn lemma_table_insert(m: Seq<(Seq<char>, TValue)>, k: Seq<char>, v: TValue)
    requires
        table_sorted(m),
        tsorted(v),
    ensures
        table_sorted(tinsert(m, k, v)),
{
    lemma_set_then_get(m, k, v, k);
    lemma_tinsert_values(m, k, v);
}

proof fn lemma_tget_sorted(m: Seq<(Seq<char>, TValue)>, k: Seq<char>)
    requires
        table_sorted(m),
    ensures
        tget(m, k) matches Some(v) ==> tsorted(v),
{
    let j = tpos(m, k);
    if 0 <= j < m.len() && m[j].0 == k {
        assert(tsorted(m[j].1));
    }
}

proof fn lemma_items_push(items: Seq<TValue>, v: TValue)
    requires
        items_sorted(items),
        tsorted(v),
    ensures
        items_sorted(items.push(v)),
{
    assert forall|i: int| 0 <= i < items.push(v).len() implies tsorted(#[trigger] items.push(v)[i]) by {
        if i < items.len() {
            assert(items.push(v)[i] == items[i]);
        }
    }
}

proof fn lemma_value_sorted(s: Seq<char>, p: int, d: int)
    ensures
        value_spec(s, p, d) matches Ok((v, _)) ==> tsorted(v),
    decreases 2 * (MAX_DEPTH - d) + 1, s.len() - p,
{
    if d < 0 || d > MAX_DEPTH || p < 0 || p >= s.len() {
    } else if s[p] == '[' && d + 1 <= MAX_DEPTH {
        lemma_items_sorted(s, p, p + 1, d + 1, seq![]);
    } else if s[p] == '{' && d + 1 <= MAX_DEPTH {
        let q = spaces_end(s, p + 1);
        if !(0 <= q < s.len() && s[q] == '}') {
            lemma_inline_sorted(s, p, q, d + 1, seq![]);
        }
    }
}

proof fn lemma_items_sorted(s: Seq<char>, open: int, q: int, e: int, acc: Seq<TValue>)
    requires
        items_sorted(acc),
    ensures
        items_spec(s, open, q, e, acc) matches Ok((v, _)) ==> tsorted(v),
    decreases 2 * (MAX_DEPTH - e) + 2, s.len() - q,
{
    let q1 = blank_end(s, q);
    if e < 0 || e > MAX_DEPTH {
    } else if 0 <= q1 < s.len() && s[q1] == ']' {
    } else if q1 < 0 || q1 >= s.len() {
    } else {
        lemma_value_sorted(s, q1, e);
        match value_spec(s, q1, e) {
            Err(_) => {},
            Ok((v, r)) => {
                lemma_items_push(acc, v);
                let r1 = blank_end(s, r);
                if r1 >= q && 0 <= r1 < s.len() && s[r1] == ',' {
                    lemma_items_sorted(s, open, r1 + 1, e, acc.push(v));
                }
            },
        }
    }
}

proof fn lemma_inline_sorted(
    s: Seq<char>,
    open: int,
    q: int,
    e: int,
    acc: Seq<(Seq<char>, TValue)>,
)
    requires
        table_sorted(acc),
    ensures
        inline_spec(s, open, q, e, acc) matches Ok((v, _)) ==> tsorted(v),
    decreases 2 * (MAX_DEPTH - e) + 2, s.len() - q,
{
    let k = spaces_end(s, q);
    if e < 0 || e > MAX_DEPTH {
    } else if 0 <= k < s.len() && (s[k] == '\n' || s[k] == '\r') {
    } else {
        match key_spec(s, k) {
            Err(_) => {},
            Ok((key, r)) => {
                let r1 = spaces_end(s, r);
                if 0 <= r1 < s.len() && s[r1] == '=' {
                    lemma_value_sorted(s, spaces_end(s, r1 + 1), e);
                    match value_spec(s, spaces_end(s, r1 + 1), e) {
                        Err(_) => {},
                        Ok((v, t)) => {
                            lemma_table_insert(acc, key, v);
                            let t1 = spaces_end(s, t);
                            if !has_key(acc, key) && t1 >= q && 0 <= t1 < s.len() && s[t1] == ',' {
                                lemma_inline_sorted(s, open, t1 + 1, e, tinsert(acc, key, v));
                            }
                        },
                    }
                }
            },
        }
    }
}

proof fn lemma_reach_sorted(t: Seq<(Seq<char>, TValue)>, path: Seq<Seq<char>>)
    requires
        table_sorted(t),
    ensures
        reach(t, path) matches Some((x, _)) ==> table_sorted(x),
    decreases path.len(),
{
    if path.len() > 0 {
        let k = path[0];
        let rest = path.drop_first();
        lemma_tget_sorted(t, k);
        match tget(t, k) {
            None => lemma_reach_sorted(seq![], rest),
            Some(TValue::Table(sub)) => lemma_reach_sorted(sub, rest),
            Some(TValue::Array(items)) => if items.len() > 0 && items.last() is Table {
                assert(tsorted(items[items.len() - 1]));
                lemma_reach_sorted(items.last()->Table_0, rest);
            },
            _ => {},
        }
    }
}

proof fn lemma_set_at_sorted(t: Seq<(Seq<char>, TValue)>, path: Seq<Seq<char>>, sub: Seq<(Seq<char>, TValue)>)
    requires
        table_sorted(t),
        table_sorted(sub),
    ensures
        table_sorted(set_at(t, path, sub)),
    decreases path.len(),
{
    if path.len() > 0 {
        let k = path[0];
        let rest = path.drop_first();
        lemma_tget_sorted(t, k);
        match tget(t, k) {
            None => {
                lemma_set_at_sorted(seq![], rest, sub);
                lemma_table_insert(t, k, TValue::Table(set_at(seq![], rest, sub)));
            },
            Some(TValue::Table(x)) => {
                lemma_set_at_sorted(x, rest, sub);
                lemma_table_insert(t, k, TValue::Table(set_at(x, rest, sub)));
            },
            Some(TValue::Array(items)) => if items.len() > 0 && items.last() is Table {
                let n = items.len() - 1;
                assert(tsorted(items[n]));
                lemma_set_at_sorted(items.last()->Table_0, rest, sub);
                let w = TValue::Table(set_at(items.last()->Table_0, rest, sub));
                let up = items.update(n, w);
                assert forall|i: int| 0 <= i < up.len() implies tsorted(#[trigger] up[i]) by {
                    if i != n {
                        assert(up[i] == items[i]);
                    }
                }
                lemma_table_insert(t, k, TValue::Array(up));
            },
            _ => {},
        }
    }
}

proof fn lemma_header_sorted(s: Seq<char>, at: int, st: Doc)
    requires
        table_sorted(st.root),
    ensures
        header_spec(s, at, st) matches Ok((d, _)) ==> table_sorted(d.root),
{
    let array = 0 <= at + 1 < s.len() && s[at + 1] == '[';
    let q = if array {
        at + 2
    } else {
        at + 1
    };
    match header_keys(s, q, 0, seq![]) {
        Err(_) => {},
        Ok((path, _)) => {
            let parents = path.drop_last();
            let last = path.last();
            lemma_reach_sorted(st.root, parents);
            lemma_reach_sorted(st.root, path);
            match reach(st.root, parents) {
                None => {},
                Some((parent, _)) => {
                    lemma_tget_sorted(parent, last);
                    match tget(parent, last) {
                        Some(TValue::Array(items)) => {
                            lemma_items_push(items, TValue::Table(seq![]));
                            lemma_table_insert(parent, last, TValue::Array(items.push(TValue::Table(seq![]))));
                            lemma_set_at_sorted(
                                st.root,
                                parents,
                                tinsert(parent, last, TValue::Array(items.push(TValue::Table(seq![])))),
                            );
                        },
                        None => {
                            lemma_items_push(seq![], TValue::Table(seq![]));
                            assert(seq![TValue::Table(seq![])] =~= seq![].push(TValue::Table(seq![])));
                            lemma_table_insert(parent, last, TValue::Array(seq![TValue::Table(seq![])]));
                            lemma_set_at_sorted(
                                st.root,
                                parents,
                                tinsert(parent, last, TValue::Array(seq![TValue::Table(seq![])])),
                            );
                        },
                        _ => {},
                    }
                },
            }
            match reach(st.root, path) {
                None => {},
                Some((table, _)) => lemma_set_at_sorted(st.root, path, table),
            }
        },
    }
}

proof fn lemma_statement_sorted(s: Seq<char>, at: int, st: Doc)
    requires
        table_sorted(st.root),
    ensures
        statement_spec(s, at, st) matches Ok((d, _)) ==> table_sorted(d.root),
{
    match key_spec(s, at) {
        Err(_) => {},
        Ok((key, r)) => {
            let r1 = spaces_end(s, r);
            lemma_value_sorted(s, spaces_end(s, r1 + 1), 0);
            lemma_reach_sorted(st.root, st.path);
            match value_spec(s, spaces_end(s, r1 + 1), 0) {
                Err(_) => {},
                Ok((v, _)) => match reach(st.root, st.path) {
                    None => {},
                    Some((table, _)) => {
                        lemma_table_insert(table, key, v);
                        lemma_set_at_sorted(st.root, st.path, tinsert(table, key, v));
                    },
                },
            }
        },
    }
}

proof fn lemma_doc_sorted(s: Seq<char>, q: int, st: Doc)
    requires
        table_sorted(st.root),
    ensures
        doc_spec(s, q, st) matches Ok(root) ==> table_sorted(root),
    decreases s.len() - q,
{
    let q1 = blank_end(s, q);
    if 0 <= q1 < s.len() {
        lemma_header_sorted(s, q1, st);
        lemma_statement_sorted(s, q1, st);
        let next = if s[q1] == '[' {
            header_spec(s, q1, st)
        } else {
            statement_spec(s, q1, st)
        };
        match next {
            Err(_) => {},
            Ok((st2, end)) => if q < end <= s.len() {
                lemma_doc_sorted(s, end, st2);
            },
        }
    }
}

/// Whatever a document holds, every table in it, however deep, has its keys
/// strictly in byte order, each once.
pub proof fn lemma_parsed_sorted(src: Seq<char>)
    ensures
        parse_spec(src) matches Ok(root) ==> table_sorted(root),
{
    lemma_doc_sorted(body(src), 0, start_doc());
}

} // verus!
