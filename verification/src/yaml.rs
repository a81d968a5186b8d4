//! A YAML reader, cut down to what `pnpm-lock.yaml` actually contains.
//!
//! Accepted: block mappings nested by indentation, `key: value` and bare
//! `key:`; block sequences indented under their key; plain, single-quoted
//! and double-quoted scalars (JSON's escapes plus `\0`); one-line flow
//! mappings and flow sequences, a trailing comma allowed, also on the line
//! under their key; `#` comments; blank lines anywhere; a byte-order mark;
//! one leading `---`.
//!
//! Refused, with a position: tabs in indentation, a dedent between two open
//! levels, anchors, aliases, tags, directives and block scalars (by name),
//! a plain scalar opening with a flow indicator, multi-line quoted scalars,
//! a second document or an end marker, flow collections over several lines,
//! a sequence level with its key, a mapping inside a sequence item, and
//! duplicate keys.
//!
//! Only the lowercase tokens `true` and `false` are typed: `no`, `on` and
//! `off` are real package names, and `1.0` must stay the string it is. The
//! one null is a key with nothing after it and nothing under it.
//!
//! Each production is a spec function over the characters of the input, and
//! the parser is proved to give exactly its answers.
use crate::error::{Error, Result};
use crate::json::{self, Parsed};
use crate::text;
use crate::toml;
use vstd::prelude::*;

verus! {

/// Block and flow nesting together; a pnpm lockfile needs five.
pub const MAX_DEPTH: u32 = 128;

#[derive(Debug)]
pub enum Value {
    /// A key with an empty value and no block under it. Never the text `null`.
    Null,
    Bool(bool),
    String(String),
    Sequence(Vec<Value>),
    /// Keys in byte order, each once: a duplicate is an error.
    Mapping(Vec<(String, Value)>),
}

/// A YAML value as plain values.
pub enum YValue {
    Null,
    Bool(bool),
    Str(Seq<char>),
    List(Seq<YValue>),
    Dict(Seq<(Seq<char>, YValue)>),
}

pub open spec fn yview(v: Value) -> YValue
    decreases v,
{
    match v {
        Value::Null => YValue::Null,
        Value::Bool(b) => YValue::Bool(b),
        Value::String(s) => YValue::Str(s@),
        Value::Sequence(items) => YValue::List(
            Seq::new(
                items@.len(),
                |i: int|
                    if 0 <= i < items@.len() {
                        yview(items@[i])
                    } else {
                        YValue::Null
                    },
            ),
        ),
        Value::Mapping(m) => YValue::Dict(
            Seq::new(
                m@.len(),
                |i: int|
                    if 0 <= i < m@.len() {
                        (m@[i].0@, yview(m@[i].1))
                    } else {
                        (seq![], YValue::Null)
                    },
            ),
        ),
    }
}

pub open spec fn yviews(v: Seq<Value>) -> Seq<YValue> {
    v.map_values(|x: Value| yview(x))
}

pub open spec fn members_view(m: Seq<(String, Value)>) -> Seq<(Seq<char>, YValue)> {
    m.map_values(|x: (String, Value)| (x.0@, yview(x.1)))
}

pub proof fn lemma_yview_sequence(items: Vec<Value>)
    ensures
        yview(Value::Sequence(items)) == YValue::List(yviews(items@)),
{
    let a = match yview(Value::Sequence(items)) {
        YValue::List(a) => a,
        _ => seq![],
    };
    assert(a.len() == items@.len());
    assert forall|i: int| 0 <= i < a.len() implies a[i] == yviews(items@)[i] by {}
    assert(a =~= yviews(items@));
}

pub proof fn lemma_yview_mapping(m: Vec<(String, Value)>)
    ensures
        yview(Value::Mapping(m)) == YValue::Dict(members_view(m@)),
{
    let a = match yview(Value::Mapping(m)) {
        YValue::Dict(a) => a,
        _ => seq![],
    };
    assert(a.len() == m@.len());
    assert forall|i: int| 0 <= i < a.len() implies a[i] == members_view(m@)[i] by {}
    assert(a =~= members_view(m@));
}

/// Where `k` is, or goes, in a mapping kept in byte order of key.
pub open spec fn ypos(m: Seq<(Seq<char>, YValue)>, k: Seq<char>) -> int
    decreases m.len(),
{
    if m.len() == 0 {
        0
    } else if m[0].0 == k || text::seq_lt(k, m[0].0) {
        0
    } else {
        1 + ypos(m.drop_first(), k)
    }
}

/// The member of a mapping called `k`.
pub open spec fn yget(m: Seq<(Seq<char>, YValue)>, k: Seq<char>) -> Option<YValue> {
    let j = ypos(m, k);
    if 0 <= j < m.len() && m[j].0 == k {
        Some(m[j].1)
    } else {
        None
    }
}

/// `m` with `k` set to `v`, keys kept in byte order.
pub open spec fn yinsert(m: Seq<(Seq<char>, YValue)>, k: Seq<char>, v: YValue) -> Seq<
    (Seq<char>, YValue),
>
    decreases m.len(),
{
    if m.len() == 0 {
        seq![(k, v)]
    } else if m[0].0 == k {
        seq![(k, v)] + m.drop_first()
    } else if text::seq_lt(k, m[0].0) {
        seq![(k, v)] + m
    } else {
        seq![m[0]] + yinsert(m.drop_first(), k, v)
    }
}

/// The first position at or after `p` that is not a space.
pub open spec fn indent_end(s: Seq<char>, p: int) -> int
    decreases s.len() - p,
{
    if 0 <= p < s.len() && s[p] == ' ' {
        indent_end(s, p + 1)
    } else {
        p
    }
}

/// `i` is the end of the input, or whitespace: what turns a `:` into a
/// mapping indicator and a `-` into a sequence entry.
pub open spec fn breaks_after(s: Seq<char>, i: int) -> bool {
    i >= s.len() || s[i] == ' ' || s[i] == '\t' || s[i] == '\n' || s[i] == '\r'
}

/// A `-` that opens a sequence entry, as opposed to one that starts `-1`.
pub open spec fn is_dash(s: Seq<char>, p: int) -> bool {
    0 <= p < s.len() && s[p] == '-' && breaks_after(s, p + 1)
}

pub open spec fn at_line_end(s: Seq<char>, p: int) -> bool {
    p >= s.len() || s[p] == '\n' || s[p] == '\r' || s[p] == '#'
}

/// Past the end of the line `p` is on.
pub open spec fn skip_line(s: Seq<char>, p: int) -> int {
    if toml::line_end(s, p) < s.len() {
        toml::line_end(s, p) + 1
    } else {
        s.len() as int
    }
}

/// `---` or `...` standing alone at `a`.
pub open spec fn marker_at(s: Seq<char>, a: int) -> Option<Seq<char>> {
    if toml::starts_at(s, a, "---"@) && breaks_after(s, a + 3) {
        Some("---"@)
    } else if toml::starts_at(s, a, "..."@) && breaks_after(s, a + 3) {
        Some("..."@)
    } else {
        None
    }
}

/// What the reader finds from `p`: the indentation of the next line with
/// content, with the position at that line's start, or the end; and whether
/// the document has begun. Blank and comment lines belong to no level, and a
/// leading `---` is the only document marker accepted.
pub open spec fn next_content(s: Seq<char>, p: int, started: bool) -> core::result::Result<
    (Option<int>, int, bool),
    (Seq<char>, int),
>
    decreases s.len() - p,
{
    if p < 0 || p >= s.len() {
        Ok((None, p, started))
    } else {
        let a = indent_end(s, p);
        if 0 <= a < s.len() && s[a] == '\t' {
            Err(("tab used for indentation"@, a))
        } else if a == p && marker_at(s, a) is Some {
            if marker_at(s, a) == Some("..."@) {
                Err(("a document end marker is not part of the supported YAML subset"@, a))
            } else if started {
                Err(("a second document is not part of the supported YAML subset"@, a))
            } else {
                let q = toml::spaces_end(s, a + 3);
                if !at_line_end(s, q) {
                    Err(("a document marker must be alone on its line"@, q))
                } else {
                    let q2 = skip_line(s, q);
                    proof {
                        lemma_spaces_end(s, a + 3);
                        toml::lemma_line_end(s, q);
                    }
                    next_content(s, q2, true)
                }
            }
        } else if a >= s.len() {
            Ok((None, a, started))
        } else if s[a] == '\n' || s[a] == '\r' || s[a] == '#' {
            proof {
                toml::lemma_line_end(s, p);
            }
            next_content(s, skip_line(s, p), started)
        } else {
            Ok((Some(a - p), p, true))
        }
    }
}

pub proof fn lemma_spaces_end(s: Seq<char>, p: int)
    ensures
        toml::spaces_end(s, p) >= p,
        p <= s.len() ==> toml::spaces_end(s, p) <= s.len(),
    decreases s.len() - p,
{
    if 0 <= p < s.len() && (s[p] == ' ' || s[p] == '\t') {
        lemma_spaces_end(s, p + 1);
    }
}

/// A single-quoted scalar from `q`, opened at `open`; `''` is a quote.
pub open spec fn single_rest(s: Seq<char>, open: int, q: int, acc: Seq<char>) -> Parsed<Seq<char>>
    decreases s.len() - q,
{
    if q < 0 || q >= s.len() || s[q] == '\n' || s[q] == '\r' {
        Err(("unterminated single-quoted scalar"@, open))
    } else if s[q] == '\'' {
        if q + 1 < s.len() && s[q + 1] == '\'' {
            single_rest(s, open, q + 2, acc.push('\''))
        } else {
            Ok((acc, q + 1))
        }
    } else {
        single_rest(s, open, q + 1, acc.push(s[q]))
    }
}

/// One escape after its backslash: JSON's set plus `\0`.
pub open spec fn escape_spec(s: Seq<char>, p: int) -> Parsed<char> {
    if p < 0 || p >= s.len() {
        Err(("unterminated escape"@, p))
    } else {
        let b = s[p];
        if b == '"' {
            Ok(('"', p + 1))
        } else if b == '\\' {
            Ok(('\\', p + 1))
        } else if b == '/' {
            Ok(('/', p + 1))
        } else if b == '0' {
            Ok(('\0', p + 1))
        } else if b == 'b' {
            Ok(('\u{8}', p + 1))
        } else if b == 'f' {
            Ok(('\u{c}', p + 1))
        } else if b == 'n' {
            Ok(('\n', p + 1))
        } else if b == 'r' {
            Ok(('\r', p + 1))
        } else if b == 't' {
            Ok(('\t', p + 1))
        } else if b != 'u' {
            Err(("unsupported escape `\\"@ + seq![json::lead_byte(b)] + "`"@, p))
        } else if !toml::hits(s, p + 1, 0, 4) {
            Err(("truncated \\u escape"@, p + 1))
        } else if !(p + 5 <= s.len() && toml::all_hex(s, p + 1, 4)) {
            Err(("\\u escape needs four hex digits"@, p + 1))
        } else {
            let n = toml::hex_value(s, p + 1, 4);
            if n < 0xD800 || (0xE000 <= n && n <= 0x10FFFF) {
                Ok((n as char, p + 5))
            } else {
                Err(("escape is not a Unicode scalar value"@, p + 5))
            }
        }
    }
}

pub proof fn lemma_escape_advances(s: Seq<char>, p: int)
    ensures
        escape_spec(s, p) matches Ok((_, q)) ==> p < q,
{
}

/// A double-quoted scalar from `q`, opened at `open`.
pub open spec fn double_rest(s: Seq<char>, open: int, q: int, acc: Seq<char>) -> Parsed<Seq<char>>
    decreases s.len() - q,
{
    if q < 0 || q >= s.len() || s[q] == '\n' || s[q] == '\r' {
        Err(("unterminated double-quoted scalar"@, open))
    } else if s[q] == '"' {
        Ok((acc, q + 1))
    } else if s[q] == '\\' {
        match escape_spec(s, q + 1) {
            Err(e) => Err(e),
            Ok((c, r)) => {
                proof {
                    lemma_escape_advances(s, q + 1);
                }
                double_rest(s, open, r, acc.push(c))
            },
        }
    } else {
        double_rest(s, open, q + 1, acc.push(s[q]))
    }
}

/// A quoted scalar at `p`, which holds its opening quote.
pub open spec fn quoted_spec(s: Seq<char>, p: int) -> Parsed<Seq<char>> {
    if s[p] == '\'' {
        single_rest(s, p, p + 1, seq![])
    } else {
        double_rest(s, p, p + 1, seq![])
    }
}

/// The indicators no plain scalar may open with, refused by name.
pub open spec fn indicator_error(s: Seq<char>, p: int) -> Option<Seq<char>> {
    if p < 0 || p >= s.len() {
        None
    } else {
        let c = s[p];
        if c == '&' {
            Some("anchors are not part of the supported YAML subset"@)
        } else if c == '*' {
            Some("aliases are not part of the supported YAML subset"@)
        } else if c == '!' {
            Some("tags are not part of the supported YAML subset"@)
        } else if c == '|' || c == '>' {
            Some("block scalars are not part of the supported YAML subset"@)
        } else if c == '%' {
            Some("directives are not part of the supported YAML subset"@)
        } else if c == '@' || c == '`' {
            Some("this character is reserved in YAML; quote the scalar"@)
        } else {
            None
        }
    }
}

pub open spec fn is_flow_indicator(c: char) -> bool {
    c == '{' || c == '}' || c == '[' || c == ']' || c == ','
}

/// `s[p..e]` without the spaces and tabs it ends in.
pub open spec fn trim_tail(s: Seq<char>, p: int, e: int) -> Seq<char>
    decreases e - p,
{
    if p < e && (s[e - 1] == ' ' || s[e - 1] == '\t') {
        trim_tail(s, p, e - 1)
    } else {
        s.subrange(p, e)
    }
}

/// ` #` opens a comment: a `#` after a space or a tab, not at `p`.
pub open spec fn comment_at(s: Seq<char>, p: int, i: int) -> bool {
    i > p && s[i] == '#' && (s[i - 1] == ' ' || s[i - 1] == '\t')
}

/// Where an unquoted key from `p` ends: at the first `:` followed by a break,
/// searching from `i`. `None` when the line runs out, or a comment starts,
/// first.
pub open spec fn key_end(s: Seq<char>, p: int, i: int) -> Option<int>
    decreases s.len() - i,
{
    if i < 0 || i >= s.len() || s[i] == '\n' || s[i] == '\r' {
        None
    } else if s[i] == ':' && breaks_after(s, i + 1) {
        Some(i)
    } else if comment_at(s, p, i) {
        None
    } else {
        key_end(s, p, i + 1)
    }
}

/// An unquoted key at `p`, up to the `:` that ends it.
pub open spec fn plain_key(s: Seq<char>, p: int) -> Parsed<Seq<char>> {
    if indicator_error(s, p) is Some {
        Err((indicator_error(s, p)->0, p))
    } else if 0 <= p < s.len() && is_flow_indicator(s[p]) {
        Err(("a flow indicator may not open a plain scalar; quote it"@, p))
    } else {
        match key_end(s, p, p) {
            None => Err(("expected ':' after a mapping key"@, p)),
            Some(i) => {
                let k = trim_tail(s, p, i);
                if k.len() == 0 {
                    Err(("empty mapping key"@, p))
                } else {
                    Ok((k, i))
                }
            },
        }
    }
}

/// A block mapping key at `p` and the `:` after it.
pub open spec fn key_spec(s: Seq<char>, p: int) -> Parsed<Seq<char>> {
    let k = if 0 <= p < s.len() && (s[p] == '\'' || s[p] == '"') {
        quoted_spec(s, p)
    } else {
        plain_key(s, p)
    };
    match k {
        Err(e) => Err(e),
        Ok((key, r)) => {
            let r1 = toml::spaces_end(s, r);
            if 0 <= r1 < s.len() && s[r1] == ':' {
                Ok((key, r1 + 1))
            } else {
                Err(("expected ':' after a mapping key"@, r1))
            }
        },
    }
}

/// The two tokens this reader types.
pub open spec fn scalar(t: Seq<char>) -> YValue {
    if t == "true"@ {
        YValue::Bool(true)
    } else if t == "false"@ {
        YValue::Bool(false)
    } else {
        YValue::Str(t)
    }
}

/// Where a plain scalar in block context ends, searching from `i`: at the
/// line's end or a comment. `Err` with the position of an unquoted `: `.
pub open spec fn plain_end(s: Seq<char>, p: int, i: int) -> core::result::Result<int, int>
    decreases s.len() - i,
{
    if i < 0 || i >= s.len() || s[i] == '\n' || s[i] == '\r' {
        Ok(i)
    } else if s[i] == ':' && breaks_after(s, i + 1) {
        Err(i)
    } else if comment_at(s, p, i) {
        Ok(i)
    } else {
        plain_end(s, p, i + 1)
    }
}

/// A plain scalar in block context at `p`: the rest of the line, less a
/// comment and trailing whitespace.
pub open spec fn plain_scalar(s: Seq<char>, p: int) -> Parsed<YValue> {
    if indicator_error(s, p) is Some {
        Err((indicator_error(s, p)->0, p))
    } else if 0 <= p < s.len() && is_flow_indicator(s[p]) {
        Err(("a flow indicator may not open a plain scalar; quote it"@, p))
    } else {
        match plain_end(s, p, p) {
            Err(i) => Err(("':' in a plain scalar; quote it, or start a block"@, i)),
            Ok(i) => Ok((scalar(trim_tail(s, p, i)), i)),
        }
    }
}

/// Where a plain scalar inside `{}` or `[]` ends, searching from `i`.
pub open spec fn flow_end(s: Seq<char>, p: int, i: int) -> core::result::Result<int, int>
    decreases s.len() - i,
{
    if i < 0 || i >= s.len() || is_flow_indicator(s[i]) || s[i] == '\n' || s[i] == '\r' {
        Ok(i)
    } else if s[i] == ':' && breaks_after(s, i + 1) {
        Err(i)
    } else if comment_at(s, p, i) {
        Ok(i)
    } else {
        flow_end(s, p, i + 1)
    }
}

/// A plain scalar inside `{}` or `[]` at `p`.
pub open spec fn flow_scalar(s: Seq<char>, p: int) -> Parsed<YValue> {
    if indicator_error(s, p) is Some {
        Err((indicator_error(s, p)->0, p))
    } else {
        match flow_end(s, p, p) {
            Err(i) => Err(("':' in a flow scalar; quote it"@, i)),
            Ok(i) => {
                let t = trim_tail(s, p, i);
                if t.len() == 0 {
                    Err(("expected a value"@, p))
                } else {
                    Ok((scalar(t), i))
                }
            },
        }
    }
}

/// Where an unquoted flow mapping key from `p` ends, searching from `i`.
/// `Err` with the message and position when it cannot.
pub open spec fn flow_key_end(s: Seq<char>, open: int, p: int, i: int) -> core::result::Result<
    int,
    (Seq<char>, int),
>
    decreases s.len() - i,
{
    if i < 0 || i >= s.len() {
        Err(("unclosed flow mapping"@, open))
    } else if s[i] == '\n' || s[i] == '\r' {
        Err(("a flow mapping may not span lines"@, open))
    } else if s[i] == ':' && breaks_after(s, i + 1) {
        Ok(i)
    } else if is_flow_indicator(s[i]) {
        Err(("expected ':' after a flow mapping key"@, i))
    } else if comment_at(s, p, i) {
        Ok(i)
    } else {
        flow_key_end(s, open, p, i + 1)
    }
}

/// A flow mapping key at `p` and the `:` after it, in the mapping opened at
/// `open`.
pub open spec fn flow_key(s: Seq<char>, open: int, p: int) -> Parsed<Seq<char>> {
    let k: Parsed<Seq<char>> = if 0 <= p < s.len() && (s[p] == '\'' || s[p] == '"') {
        quoted_spec(s, p)
    } else if indicator_error(s, p) is Some {
        Err((indicator_error(s, p)->0, p))
    } else {
        match flow_key_end(s, open, p, p) {
            Err(e) => Err(e),
            Ok(i) => {
                let t = trim_tail(s, p, i);
                if t.len() == 0 {
                    Err(("empty mapping key"@, p))
                } else {
                    Ok((t, i))
                }
            },
        }
    };
    match k {
        Err(e) => Err(e),
        Ok((key, r)) => {
            let r1 = toml::spaces_end(s, r);
            if 0 <= r1 < s.len() && s[r1] == ':' {
                Ok((key, r1 + 1))
            } else {
                Err(("expected ':' after a flow mapping key"@, r1))
            }
        },
    }
}

/// A value inside `{}` or `[]` at `p`, `d` levels deep.
pub open spec fn flow_value(s: Seq<char>, p: int, d: int) -> Parsed<YValue>
    decreases MAX_DEPTH - d, s.len() - p, 3int,
{
    if 0 <= p < s.len() && (s[p] == '\'' || s[p] == '"') {
        match quoted_spec(s, p) {
            Err(e) => Err(e),
            Ok((t, q)) => Ok((YValue::Str(t), q)),
        }
    } else if 0 <= p < s.len() && s[p] == '{' {
        flow_mapping(s, p, d)
    } else if 0 <= p < s.len() && s[p] == '[' {
        flow_sequence(s, p, d)
    } else {
        flow_scalar(s, p)
    }
}

/// A flow mapping opened at `open`, `d` levels deep outside it.
pub open spec fn flow_mapping(s: Seq<char>, open: int, d: int) -> Parsed<YValue>
    decreases MAX_DEPTH - d, s.len() - open, 2int,
{
    if d < 0 || d + 1 > MAX_DEPTH {
        Err(("nesting deeper than 128"@, open))
    } else {
        flow_members(s, open, open + 1, d + 1, seq![])
    }
}

/// The members of the flow mapping opened at `open`, from `q`.
pub open spec fn flow_members(
    s: Seq<char>,
    open: int,
    q: int,
    e: int,
    acc: Seq<(Seq<char>, YValue)>,
) -> Parsed<YValue>
    decreases MAX_DEPTH - e + 1, s.len() - q + 1, 1int,
{
    let q1 = toml::spaces_end(s, q);
    if e > MAX_DEPTH {
        Err(("nesting deeper than 128"@, q))
    } else if 0 <= q1 < s.len() && s[q1] == '}' {
        Ok((YValue::Dict(acc), q1 + 1))
    } else if q1 < 0 || q1 >= s.len() {
        Err(("unclosed flow mapping"@, open))
    } else if s[q1] == '\n' || s[q1] == '\r' {
        Err(("a flow mapping may not span lines"@, open))
    } else {
        match flow_key(s, open, q1) {
            Err(x) => Err(x),
            Ok((key, r)) => {
                let r1 = toml::spaces_end(s, r);
                match flow_value(s, r1, e) {
                    Err(x) => Err(x),
                    Ok((v, t)) => if yget(acc, key) is Some {
                        Err(("duplicate key `"@ + key + "`"@, q1))
                    } else {
                        let t1 = toml::spaces_end(s, t);
                        let acc2 = yinsert(acc, key, v);
                        if t1 < q {
                            Err(("expected ',' or '}'"@, t1))
                        } else if 0 <= t1 < s.len() && s[t1] == ',' {
                            flow_members(s, open, t1 + 1, e, acc2)
                        } else if 0 <= t1 < s.len() && s[t1] == '}' {
                            Ok((YValue::Dict(acc2), t1 + 1))
                        } else if t1 < 0 || t1 >= s.len() {
                            Err(("unclosed flow mapping"@, open))
                        } else if s[t1] == '\n' || s[t1] == '\r' {
                            Err(("a flow mapping may not span lines"@, open))
                        } else {
                            Err(("expected ',' or '}'"@, t1))
                        }
                    },
                }
            },
        }
    }
}

/// A flow sequence opened at `open`, `d` levels deep outside it.
pub open spec fn flow_sequence(s: Seq<char>, open: int, d: int) -> Parsed<YValue>
    decreases MAX_DEPTH - d, s.len() - open, 2int,
{
    if d < 0 || d + 1 > MAX_DEPTH {
        Err(("nesting deeper than 128"@, open))
    } else {
        flow_items(s, open, open + 1, d + 1, seq![])
    }
}

/// The items of the flow sequence opened at `open`, from `q`.
pub open spec fn flow_items(s: Seq<char>, open: int, q: int, e: int, acc: Seq<YValue>) -> Parsed<YValue>
    decreases MAX_DEPTH - e + 1, s.len() - q + 1, 1int,
{
    let q1 = toml::spaces_end(s, q);
    if e > MAX_DEPTH {
        Err(("nesting deeper than 128"@, q))
    } else if 0 <= q1 < s.len() && s[q1] == ']' {
        Ok((YValue::List(acc), q1 + 1))
    } else if q1 < 0 || q1 >= s.len() {
        Err(("unclosed flow sequence"@, open))
    } else if s[q1] == '\n' || s[q1] == '\r' {
        Err(("a flow sequence may not span lines"@, open))
    } else {
        match flow_value(s, q1, e) {
            Err(x) => Err(x),
            Ok((v, t)) => {
                let t1 = toml::spaces_end(s, t);
                if t1 < q {
                    Err(("expected ',' or ']'"@, t1))
                } else if 0 <= t1 < s.len() && s[t1] == ',' {
                    flow_items(s, open, t1 + 1, e, acc.push(v))
                } else if 0 <= t1 < s.len() && s[t1] == ']' {
                    Ok((YValue::List(acc.push(v)), t1 + 1))
                } else if t1 < 0 || t1 >= s.len() {
                    Err(("unclosed flow sequence"@, open))
                } else if s[t1] == '\n' || s[t1] == '\r' {
                    Err(("a flow sequence may not span lines"@, open))
                } else {
                    Err(("expected ',' or ']'"@, t1))
                }
            },
        }
    }
}

/// A value that starts on the line of its key or its `-`.
pub open spec fn inline_value(s: Seq<char>, p: int, d: int) -> Parsed<YValue> {
    if 0 <= p < s.len() && (s[p] == '\'' || s[p] == '"' || s[p] == '{' || s[p] == '[') {
        flow_value(s, p, d)
    } else if is_dash(s, p) {
        Err(("a sequence item may not start on its parent's line"@, p))
    } else {
        plain_scalar(s, p)
    }
}

/// The line after a value: spaces, a comment, and the newline.
pub open spec fn after_value(s: Seq<char>, r: Parsed<YValue>) -> Parsed<YValue> {
    match r {
        Err(x) => Err(x),
        Ok((v, t)) => match toml::eol_spec(s, t) {
            Err(x) => Err(x),
            Ok(t2) => Ok((v, t2)),
        },
    }
}

/// One block node whose first line starts at `p`, indented `indent`, `d`
/// levels deep. A flow collection may stand on the line under its key.
pub open spec fn block(s: Seq<char>, p: int, indent: int, d: int) -> Parsed<YValue>
    decreases MAX_DEPTH - d, s.len() - p, 6int,
{
    let head = p + indent;
    if d < 0 || d > MAX_DEPTH {
        Err(("nesting deeper than 128"@, p))
    } else if 0 <= head < s.len() && (s[head] == '{' || s[head] == '[') {
        after_value(s, inline_value(s, head, d))
    } else if is_dash(s, head) {
        sequence(s, p, indent, d)
    } else {
        mapping(s, p, indent, d)
    }
}

/// A block mapping from `p`, its keys indented `indent`.
pub open spec fn mapping(s: Seq<char>, p: int, indent: int, d: int) -> Parsed<YValue>
    decreases MAX_DEPTH - d, s.len() - p, 5int,
{
    if d < 0 || d + 1 > MAX_DEPTH {
        Err(("nesting deeper than 128"@, p))
    } else {
        members(s, p, indent, d + 1, seq![])
    }
}

/// What follows a key's `:` when the line ends there: the position of the
/// next content line and its indentation, or nothing.
pub open spec fn under(s: Seq<char>, r1: int) -> core::result::Result<(Option<int>, int), (Seq<char>, int)> {
    match toml::eol_spec(s, r1) {
        Err(x) => Err(x),
        Ok(t) => match next_content(s, t, true) {
            Err(x) => Err(x),
            Ok((n, t2, _)) => Ok((n, t2)),
        },
    }
}

/// The members of a block mapping from `p`, keys indented `indent`.
pub open spec fn members(s: Seq<char>, p: int, indent: int, e: int, acc: Seq<(Seq<char>, YValue)>) -> Parsed<
    YValue,
>
    decreases MAX_DEPTH - e + 1, s.len() - p, 4int,
{
    if e > MAX_DEPTH {
        Err(("nesting deeper than 128"@, p))
    } else {
        match next_content(s, p, true) {
            Err(x) => Err(x),
            Ok((None, q, _)) => Ok((YValue::Dict(acc), q)),
            Ok((Some(n), q, _)) => if n < indent {
                Ok((YValue::Dict(acc), q))
            } else if n > indent {
                Err(("unexpected indentation"@, q + n))
            } else if is_dash(s, q + n) {
                Err(("a block sequence must be indented under its key, not level with it"@, q + n))
            } else {
                match key_spec(s, q + n) {
                    Err(x) => Err(x),
                    Ok((key, r)) => {
                        let r1 = toml::spaces_end(s, r);
                        let val = if at_line_end(s, r1) {
                            match under(s, r1) {
                                Err(x) => Err(x),
                                Ok((Some(deeper), t2)) => if deeper > indent {
                                    block(s, t2, deeper, e)
                                } else {
                                    Ok((YValue::Null, t2))
                                },
                                Ok((None, t2)) => Ok((YValue::Null, t2)),
                            }
                        } else {
                            after_value(s, inline_value(s, r1, e))
                        };
                        match val {
                            Err(x) => Err(x),
                            Ok((v, w)) => if yget(acc, key) is Some {
                                Err(("duplicate key `"@ + key + "`"@, q + n))
                            } else if w <= p || w > s.len() {
                                Err(("expected a newline"@, w))
                            } else {
                                members(s, w, indent, e, yinsert(acc, key, v))
                            },
                        }
                    },
                }
            },
        }
    }
}

/// A block sequence from `p`, its dashes indented `indent`.
pub open spec fn sequence(s: Seq<char>, p: int, indent: int, d: int) -> Parsed<YValue>
    decreases MAX_DEPTH - d, s.len() - p, 5int,
{
    if d < 0 || d + 1 > MAX_DEPTH {
        Err(("nesting deeper than 128"@, p))
    } else {
        seq_items(s, p, indent, d + 1, seq![])
    }
}

/// The items of a block sequence from `p`. An item is a scalar or a flow
/// collection, never a mapping.
pub open spec fn seq_items(s: Seq<char>, p: int, indent: int, e: int, acc: Seq<YValue>) -> Parsed<YValue>
    decreases MAX_DEPTH - e + 1, s.len() - p, 4int,
{
    if e > MAX_DEPTH {
        Err(("nesting deeper than 128"@, p))
    } else {
        match next_content(s, p, true) {
            Err(x) => Err(x),
            Ok((None, q, _)) => Ok((YValue::List(acc), q)),
            Ok((Some(n), q, _)) => if n < indent {
                Ok((YValue::List(acc), q))
            } else if n > indent {
                Err(("unexpected indentation"@, q + n))
            } else if !is_dash(s, q + n) {
                Err(("expected '- ' to continue the sequence"@, q + n))
            } else {
                let v0 = toml::spaces_end(s, q + n + 1);
                if at_line_end(s, v0) {
                    Err(("expected a value after '-'"@, v0))
                } else {
                    match after_value(s, inline_value(s, v0, e)) {
                        Err(x) => Err(x),
                        Ok((v, w)) => if w <= p || w > s.len() {
                            Err(("expected a newline"@, w))
                        } else {
                            seq_items(s, w, indent, e, acc.push(v))
                        },
                    }
                }
            },
        }
    }
}

/// What reading `src` gives: the document's value, or an error's message
/// and position in the body. A document of blanks and comments is null.
pub open spec fn parse_spec(src: Seq<char>) -> core::result::Result<YValue, (Seq<char>, int)> {
    let s = toml::body(src);
    match next_content(s, 0, false) {
        Err(x) => Err(x),
        Ok((None, _, _)) => Ok(YValue::Null),
        Ok((Some(indent), q, st)) => match block(s, q, indent, 0) {
            Err(x) => Err(x),
            Ok((v, r)) => match next_content(s, r, st) {
                Err(x) => Err(x),
                Ok((Some(n), q2, _)) => Err(("this line is outdented past the start of the document"@, q2 + n)),
                Ok((None, _, _)) => Ok(v),
            },
        },
    }
}

/// What reading `src` gives, as a value or an error.
pub open spec fn parsed(src: Seq<char>, r: Result<Value>) -> bool {
    match parse_spec(src) {
        Ok(v) => r matches Ok(x) && yview(x) == v,
        Err((what, at)) => r matches Err(e) && json::syntax_at(toml::body(src), what, at, e),
    }
}

/// The input, as characters, that every production reads.
struct Parser {
    s: Vec<char>,
}

impl Parser {
    spec fn ok(&self) -> bool {
        self.s@.len() < u32::MAX
    }

    fn err(&self, what: &str, at: usize) -> (e: Error)
        requires
            self.ok(),
            at <= self.s@.len(),
        ensures
            json::syntax_at(self.s@, what@, at as int, e),
    {
        let mut line: u32 = 1;
        let mut col: u32 = 1;
        for i in 0..at
            invariant
                self.ok(),
                at <= self.s@.len(),
                line == json::newlines(self.s@.take(i as int)) + 1,
                col == json::since_newline(self.s@.take(i as int)) + 1,
                line <= i + 1,
                col <= i + 1,
        {
            proof {
                assert(self.s@.take(i + 1).drop_last() =~= self.s@.take(i as int));
            }
            if self.s[i] == '\n' {
                line = line + 1;
                col = 1;
            } else {
                col = col + 1;
            }
        }
        Error::syntax(what, line, col)
    }

    /// Spaces and tabs from `p`.
    fn spaces(&self, p: usize) -> (q: usize)
        requires
            p <= self.s@.len(),
        ensures
            q == toml::spaces_end(self.s@, p as int),
            p <= q <= self.s@.len(),
    {
        let mut q = p;
        while q < self.s.len() && (self.s[q] == ' ' || self.s[q] == '\t')
            invariant
                p <= q <= self.s@.len(),
                toml::spaces_end(self.s@, q as int) == toml::spaces_end(self.s@, p as int),
            decreases self.s@.len() - q,
        {
            q = q + 1;
        }
        q
    }

    /// Spaces alone from `p`: indentation.
    fn indentation(&self, p: usize) -> (q: usize)
        requires
            p <= self.s@.len(),
        ensures
            q == indent_end(self.s@, p as int),
            p <= q <= self.s@.len(),
    {
        let mut q = p;
        while q < self.s.len() && self.s[q] == ' '
            invariant
                p <= q <= self.s@.len(),
                indent_end(self.s@, q as int) == indent_end(self.s@, p as int),
            decreases self.s@.len() - q,
        {
            q = q + 1;
        }
        q
    }

    fn to_line_end(&self, p: usize) -> (q: usize)
        requires
            p <= self.s@.len(),
        ensures
            q == toml::line_end(self.s@, p as int),
            p <= q <= self.s@.len(),
    {
        let mut q = p;
        while q < self.s.len() && self.s[q] != '\n'
            invariant
                p <= q <= self.s@.len(),
                toml::line_end(self.s@, q as int) == toml::line_end(self.s@, p as int),
            decreases self.s@.len() - q,
        {
            q = q + 1;
        }
        q
    }

    fn skip_line(&self, p: usize) -> (q: usize)
        requires
            p <= self.s@.len(),
        ensures
            q == skip_line(self.s@, p as int),
            p <= q <= self.s@.len(),
            p < self.s@.len() ==> p < q,
    {
        let e = self.to_line_end(p);
        if e < self.s.len() {
            e + 1
        } else {
            self.s.len()
        }
    }

    fn breaks(&self, i: usize) -> (r: bool)
        ensures
            r == breaks_after(self.s@, i as int),
    {
        i >= self.s.len() || self.s[i] == ' ' || self.s[i] == '\t' || self.s[i] == '\n' || self.s[i] == '\r'
    }

    fn dash(&self, p: usize) -> (r: bool)
        ensures
            r == is_dash(self.s@, p as int),
    {
        p < self.s.len() && self.s[p] == '-' && p < usize::MAX && self.breaks(p + 1)
    }

    fn line_done(&self, p: usize) -> (r: bool)
        ensures
            r == at_line_end(self.s@, p as int),
    {
        p >= self.s.len() || self.s[p] == '\n' || self.s[p] == '\r' || self.s[p] == '#'
    }

    fn at(&self, p: usize, w: &str) -> (r: bool)
        ensures
            r == toml::starts_at(self.s@, p as int, w@),
    {
        let wc = text::chars_of(w);
        if p <= self.s.len() && wc.len() <= self.s.len() - p {
            let here = text::slice(&self.s, p, p + wc.len());
            text::same_chars(&here, &wc)
        } else {
            false
        }
    }

    /// Spaces, a comment, and the newline after a value.
    fn eol(&self, p: usize) -> (r: Result<usize>)
        requires
            self.ok(),
            p <= self.s@.len(),
        ensures
            match toml::eol_spec(self.s@, p as int) {
                Ok(q) => r matches Ok(q2) && q2 == q,
                Err((w, at)) => r matches Err(e) && json::syntax_at(self.s@, w, at, e),
            },
            r matches Ok(q2) ==> p <= q2 <= self.s@.len(),
    {
        let q0 = self.spaces(p);
        let q = if q0 < self.s.len() && self.s[q0] == '#' {
            self.to_line_end(q0)
        } else {
            q0
        };
        if q >= self.s.len() {
            Ok(q)
        } else if self.s[q] == '\n' {
            Ok(q + 1)
        } else if self.s[q] == '\r' && q + 1 < self.s.len() && self.s[q + 1] == '\n' {
            Ok(q + 2)
        } else {
            Err(self.err("expected a newline", q))
        }
    }

    /// The next line with content from `p`, as `next_content` says.
    fn next_content(&self, from: usize, fresh: bool) -> (r: Result<(Option<usize>, usize, bool)>)
        requires
            self.ok(),
            from <= self.s@.len(),
        ensures
            match next_content(self.s@, from as int, fresh) {
                Ok((n, q, st)) => r matches Ok((n2, q2, st2)) && q2 == q && st2 == st && match n {
                    Some(k) => n2 matches Some(k2) && k2 == k,
                    None => n2 is None,
                },
                Err((w, at)) => r matches Err(e) && json::syntax_at(self.s@, w, at, e),
            },
            r matches Ok((n, q2, _)) ==> from <= q2 <= self.s@.len() && match n {
                Some(k) => q2 + k < self.s@.len(),
                None => true,
            },
    {
        let mut p = from;
        let mut started = fresh;
        loop
            invariant
                self.ok(),
                from <= p <= self.s@.len(),
                next_content(self.s@, from as int, fresh) == next_content(self.s@, p as int, started),
            decreases self.s@.len() - p,
        {
            if p >= self.s.len() {
                return Ok((None, p, started));
            }
            let a = self.indentation(p);
            if a < self.s.len() && self.s[a] == '\t' {
                return Err(self.err("tab used for indentation", a));
            }
            proof {
                reveal_strlit("---");
                reveal_strlit("...");
            }
            let dashes = self.at(a, "---") && self.breaks(a + 3);
            let dots = self.at(a, "...") && self.breaks(a + 3);
            if a == p && (dashes || dots) {
                proof {
                    reveal_strlit("---");
                    reveal_strlit("...");
                    if dashes {
                        assert(marker_at(self.s@, a as int) == Some("---"@));
                        assert("---"@[0] != "..."@[0]);
                    }
                }
                if !dashes {
                    return Err(self.err("a document end marker is not part of the supported YAML subset", a));
                }
                if started {
                    return Err(self.err("a second document is not part of the supported YAML subset", a));
                }
                let q = self.spaces(a + 3);
                if !self.line_done(q) {
                    return Err(self.err("a document marker must be alone on its line", q));
                }
                p = self.skip_line(q);
                started = true;
            } else if a >= self.s.len() {
                return Ok((None, a, started));
            } else if self.s[a] == '\n' || self.s[a] == '\r' || self.s[a] == '#' {
                p = self.skip_line(p);
            } else {
                return Ok((Some(a - p), p, true));
            }
        }
    }
}

/// The largest value `i` hex digits can spell.
spec fn hex_cap(i: int) -> int {
    if i <= 0 {
        0
    } else if i == 1 {
        15
    } else if i == 2 {
        255
    } else if i == 3 {
        4095
    } else {
        65535
    }
}

impl Parser {
    fn single(&self, open: usize) -> (r: Result<(String, usize)>)
        requires
            self.ok(),
            open < self.s@.len(),
        ensures
            match single_rest(self.s@, open as int, open + 1, seq![]) {
                Ok((t, q)) => r matches Ok((x, q2)) && x@ == t && q2 == q && open < q2 <= self.s@.len(),
                Err((w, at)) => r matches Err(e) && json::syntax_at(self.s@, w, at, e),
            },
    {
        let mut out = String::new();
        let mut q = open + 1;
        loop
            invariant
                self.ok(),
                open < q <= self.s@.len(),
                single_rest(self.s@, open as int, open + 1, seq![]) == single_rest(
                    self.s@,
                    open as int,
                    q as int,
                    out@,
                ),
            decreases self.s@.len() - q,
        {
            if q >= self.s.len() || self.s[q] == '\n' || self.s[q] == '\r' {
                return Err(self.err("unterminated single-quoted scalar", open));
            }
            if self.s[q] == '\'' {
                if q + 1 < self.s.len() && self.s[q + 1] == '\'' {
                    text::push_char(&mut out, '\'');
                    q = q + 2;
                } else {
                    return Ok((out, q + 1));
                }
            } else {
                text::push_char(&mut out, self.s[q]);
                q = q + 1;
            }
        }
    }

    /// Whether the bytes from `q` reach exactly four.
    fn four_bytes(&self, q: usize) -> (r: bool)
        requires
            q <= self.s@.len(),
        ensures
            r == toml::hits(self.s@, q as int, 0, 4),
    {
        let mut k = q;
        let mut acc: usize = 0;
        while acc < 4 && k < self.s.len()
            invariant
                q <= k <= self.s@.len(),
                acc <= 7,
                toml::hits(self.s@, k as int, acc as nat, 4) == toml::hits(self.s@, q as int, 0, 4),
            decreases self.s@.len() - k,
        {
            let c = self.s[k];
            let w: usize = if '\u{80}' > c {
                1
            } else if '\u{800}' > c {
                2
            } else if '\u{10000}' > c {
                3
            } else {
                4
            };
            acc = acc + w;
            k = k + 1;
        }
        acc == 4
    }

    fn escape(&self, p: usize) -> (r: Result<(char, usize)>)
        requires
            self.ok(),
            p <= self.s@.len(),
        ensures
            match escape_spec(self.s@, p as int) {
                Ok((c, q)) => r matches Ok((d, q2)) && d == c && q2 == q,
                Err((w, at)) => r matches Err(e) && json::syntax_at(self.s@, w, at, e),
            },
    {
        if p >= self.s.len() {
            return Err(self.err("unterminated escape", p));
        }
        let b = self.s[p];
        if b == '"' {
            return Ok(('"', p + 1));
        } else if b == '\\' {
            return Ok(('\\', p + 1));
        } else if b == '/' {
            return Ok(('/', p + 1));
        } else if b == '0' {
            return Ok(('\0', p + 1));
        } else if b == 'b' {
            return Ok(('\u{8}', p + 1));
        } else if b == 'f' {
            return Ok(('\u{c}', p + 1));
        } else if b == 'n' {
            return Ok(('\n', p + 1));
        } else if b == 'r' {
            return Ok(('\r', p + 1));
        } else if b == 't' {
            return Ok(('\t', p + 1));
        } else if b != 'u' {
            let mut m = text::owned("unsupported escape `\\");
            text::push_char(&mut m, json::lead(b));
            proof {
                assert(("unsupported escape `\\"@).push(json::lead_byte(b)) =~= "unsupported escape `\\"@ + seq![
                    json::lead_byte(b),
                ]);
            }
            text::append(&mut m, "`");
            return Err(self.err(m.as_str(), p));
        }
        let q = p + 1;
        if !self.four_bytes(q) {
            return Err(self.err("truncated \\u escape", q));
        }
        if self.s.len() - q < 4 {
            return Err(self.err("\\u escape needs four hex digits", q));
        }
        let mut n: u32 = 0;
        for i in 0..4
            invariant
                self.ok(),
                q == p + 1,
                p < self.s@.len(),
                self.s@[p as int] == 'u',
                toml::hits(self.s@, q as int, 0, 4),
                q + 4 <= self.s@.len(),
                toml::all_hex(self.s@, q as int, i as nat),
                n == toml::hex_value(self.s@, q as int, i as nat),
                n <= hex_cap(i as int),
        {
            let c = self.s[q + i];
            if !json::hex(c) {
                return Err(self.err("\\u escape needs four hex digits", q));
            }
            n = n * 16 + json::hex_digit(c);
        }
        if n < 0xD800 || (0xE000 <= n && n <= 0x10FFFF) {
            match json::char_from(n) {
                Some(c) => Ok((c, q + 4)),
                None => Err(self.err("escape is not a Unicode scalar value", q + 4)),
            }
        } else {
            Err(self.err("escape is not a Unicode scalar value", q + 4))
        }
    }

    fn double(&self, open: usize) -> (r: Result<(String, usize)>)
        requires
            self.ok(),
            open < self.s@.len(),
        ensures
            match double_rest(self.s@, open as int, open + 1, seq![]) {
                Ok((t, q)) => r matches Ok((x, q2)) && x@ == t && q2 == q && open < q2 <= self.s@.len(),
                Err((w, at)) => r matches Err(e) && json::syntax_at(self.s@, w, at, e),
            },
    {
        let mut out = String::new();
        let mut q = open + 1;
        loop
            invariant
                self.ok(),
                open < q <= self.s@.len(),
                double_rest(self.s@, open as int, open + 1, seq![]) == double_rest(
                    self.s@,
                    open as int,
                    q as int,
                    out@,
                ),
            decreases self.s@.len() - q,
        {
            if q >= self.s.len() || self.s[q] == '\n' || self.s[q] == '\r' {
                return Err(self.err("unterminated double-quoted scalar", open));
            }
            if self.s[q] == '"' {
                return Ok((out, q + 1));
            }
            if self.s[q] == '\\' {
                let (c, r) = self.escape(q + 1)?;
                proof {
                    lemma_escape_advances(self.s@, q + 1);
                }
                text::push_char(&mut out, c);
                q = r;
            } else {
                text::push_char(&mut out, self.s[q]);
                q = q + 1;
            }
        }
    }

    /// The quoted scalar opened at `p`.
    fn quoted(&self, p: usize) -> (r: Result<(String, usize)>)
        requires
            self.ok(),
            p < self.s@.len(),
        ensures
            match quoted_spec(self.s@, p as int) {
                Ok((t, q)) => r matches Ok((x, q2)) && x@ == t && q2 == q && p < q2 <= self.s@.len(),
                Err((w, at)) => r matches Err(e) && json::syntax_at(self.s@, w, at, e),
            },
    {
        if self.s[p] == '\'' {
            self.single(p)
        } else {
            self.double(p)
        }
    }

    fn indicator(&self, p: usize) -> (r: Option<&'static str>)
        ensures
            match indicator_error(self.s@, p as int) {
                Some(m) => r matches Some(x) && x@ == m,
                None => r is None,
            },
    {
        if p >= self.s.len() {
            return None;
        }
        let c = self.s[p];
        if c == '&' {
            Some("anchors are not part of the supported YAML subset")
        } else if c == '*' {
            Some("aliases are not part of the supported YAML subset")
        } else if c == '!' {
            Some("tags are not part of the supported YAML subset")
        } else if c == '|' || c == '>' {
            Some("block scalars are not part of the supported YAML subset")
        } else if c == '%' {
            Some("directives are not part of the supported YAML subset")
        } else if c == '@' || c == '`' {
            Some("this character is reserved in YAML; quote the scalar")
        } else {
            None
        }
    }

    fn flow_indicator(&self, p: usize) -> (r: bool)
        ensures
            r == (0 <= p < self.s@.len() && is_flow_indicator(self.s@[p as int])),
    {
        p < self.s.len() && (self.s[p] == '{' || self.s[p] == '}' || self.s[p] == '[' || self.s[p] == ']'
            || self.s[p] == ',')
    }

    fn trimmed_tail(&self, p: usize, e: usize) -> (r: Vec<char>)
        requires
            p <= e <= self.s@.len(),
        ensures
            r@ == trim_tail(self.s@, p as int, e as int),
    {
        let mut k = e;
        while k > p && (self.s[k - 1] == ' ' || self.s[k - 1] == '\t')
            invariant
                p <= k <= e <= self.s@.len(),
                trim_tail(self.s@, p as int, k as int) == trim_tail(self.s@, p as int, e as int),
            decreases k,
        {
            k = k - 1;
        }
        text::slice(&self.s, p, k)
    }

    fn comment(&self, p: usize, i: usize) -> (r: bool)
        requires
            i < self.s@.len(),
        ensures
            r == comment_at(self.s@, p as int, i as int),
    {
        i > p && self.s[i] == '#' && (self.s[i - 1] == ' ' || self.s[i - 1] == '\t')
    }
}

/// The value a plain scalar's text stands for.
fn scalar_of(t: &Vec<char>) -> (v: Value)
    ensures
        yview(v) == scalar(t@),
{
    let yes = text::chars_of("true");
    let no = text::chars_of("false");
    if text::same_chars(t, &yes) {
        Value::Bool(true)
    } else if text::same_chars(t, &no) {
        Value::Bool(false)
    } else {
        Value::String(text::string_of(t))
    }
}

impl Parser {
    fn plain_key(&self, p: usize) -> (r: Result<(String, usize)>)
        requires
            self.ok(),
            p <= self.s@.len(),
        ensures
            match plain_key(self.s@, p as int) {
                Ok((t, q)) => r matches Ok((x, q2)) && x@ == t && q2 == q && p < q2 < self.s@.len(),
                Err((w, at)) => r matches Err(e) && json::syntax_at(self.s@, w, at, e),
            },
    {
        if let Some(m) = self.indicator(p) {
            return Err(self.err(m, p));
        }
        if self.flow_indicator(p) {
            return Err(self.err("a flow indicator may not open a plain scalar; quote it", p));
        }
        let mut i = p;
        while i < self.s.len() && self.s[i] != '\n' && self.s[i] != '\r' && !(self.s[i] == ':'
            && self.breaks(i + 1)) && !self.comment(p, i)
            invariant
                p <= i <= self.s@.len(),
                key_end(self.s@, p as int, p as int) == key_end(self.s@, p as int, i as int),
            decreases self.s@.len() - i,
        {
            i = i + 1;
        }
        if i >= self.s.len() || self.s[i] == '\n' || self.s[i] == '\r' || !(self.s[i] == ':' && self.breaks(
            i + 1,
        )) {
            return Err(self.err("expected ':' after a mapping key", p));
        }
        let k = self.trimmed_tail(p, i);
        if k.len() == 0 {
            return Err(self.err("empty mapping key", p));
        }
        proof {
            assert(trim_tail(self.s@, p as int, i as int).len() <= i - p) by {
                lemma_trim_tail(self.s@, p as int, i as int);
            }
        }
        Ok((text::string_of(&k), i))
    }

    /// A block mapping key at `p` and its `:`.
    fn key(&self, p: usize) -> (r: Result<(String, usize)>)
        requires
            self.ok(),
            p <= self.s@.len(),
        ensures
            match key_spec(self.s@, p as int) {
                Ok((t, q)) => r matches Ok((x, q2)) && x@ == t && q2 == q && p < q2 <= self.s@.len(),
                Err((w, at)) => r matches Err(e) && json::syntax_at(self.s@, w, at, e),
            },
    {
        let (key, r) = if p < self.s.len() && (self.s[p] == '\'' || self.s[p] == '"') {
            self.quoted(p)?
        } else {
            self.plain_key(p)?
        };
        let r1 = self.spaces(r);
        if r1 < self.s.len() && self.s[r1] == ':' {
            Ok((key, r1 + 1))
        } else {
            Err(self.err("expected ':' after a mapping key", r1))
        }
    }

    fn plain_scalar(&self, p: usize) -> (r: Result<(Value, usize)>)
        requires
            self.ok(),
            p <= self.s@.len(),
        ensures
            match plain_scalar(self.s@, p as int) {
                Ok((v, q)) => r matches Ok((x, q2)) && yview(x) == v && q2 == q && p <= q2 <= self.s@.len(),
                Err((w, at)) => r matches Err(e) && json::syntax_at(self.s@, w, at, e),
            },
    {
        if let Some(m) = self.indicator(p) {
            return Err(self.err(m, p));
        }
        if self.flow_indicator(p) {
            return Err(self.err("a flow indicator may not open a plain scalar; quote it", p));
        }
        let mut i = p;
        while i < self.s.len() && self.s[i] != '\n' && self.s[i] != '\r' && !(self.s[i] == ':'
            && self.breaks(i + 1)) && !self.comment(p, i)
            invariant
                p <= i <= self.s@.len(),
                plain_end(self.s@, p as int, p as int) == plain_end(self.s@, p as int, i as int),
            decreases self.s@.len() - i,
        {
            i = i + 1;
        }
        if i < self.s.len() && self.s[i] == ':' && self.breaks(i + 1) {
            return Err(self.err("':' in a plain scalar; quote it, or start a block", i));
        }
        let t = self.trimmed_tail(p, i);
        Ok((scalar_of(&t), i))
    }

    fn flow_scalar(&self, p: usize) -> (r: Result<(Value, usize)>)
        requires
            self.ok(),
            p <= self.s@.len(),
        ensures
            match flow_scalar(self.s@, p as int) {
                Ok((v, q)) => r matches Ok((x, q2)) && yview(x) == v && q2 == q && p < q2 <= self.s@.len(),
                Err((w, at)) => r matches Err(e) && json::syntax_at(self.s@, w, at, e),
            },
    {
        if let Some(m) = self.indicator(p) {
            return Err(self.err(m, p));
        }
        let mut i = p;
        while i < self.s.len() && !self.flow_indicator(i) && self.s[i] != '\n' && self.s[i] != '\r'
            && !(self.s[i] == ':' && self.breaks(i + 1)) && !self.comment(p, i)
            invariant
                p <= i <= self.s@.len(),
                flow_end(self.s@, p as int, p as int) == flow_end(self.s@, p as int, i as int),
            decreases self.s@.len() - i,
        {
            i = i + 1;
        }
        if i < self.s.len() && self.s[i] == ':' && self.breaks(i + 1) {
            return Err(self.err("':' in a flow scalar; quote it", i));
        }
        let t = self.trimmed_tail(p, i);
        if t.len() == 0 {
            return Err(self.err("expected a value", p));
        }
        proof {
            lemma_trim_tail(self.s@, p as int, i as int);
        }
        Ok((scalar_of(&t), i))
    }

    /// A flow mapping key at `p` and its `:`, in the mapping opened at `open`.
    fn flow_key(&self, open: usize, p: usize) -> (r: Result<(String, usize)>)
        requires
            self.ok(),
            open <= self.s@.len(),
            p <= self.s@.len(),
        ensures
            match flow_key(self.s@, open as int, p as int) {
                Ok((t, q)) => r matches Ok((x, q2)) && x@ == t && q2 == q && p < q2 <= self.s@.len(),
                Err((w, at)) => r matches Err(e) && json::syntax_at(self.s@, w, at, e),
            },
    {
        let (key, r) = if p < self.s.len() && (self.s[p] == '\'' || self.s[p] == '"') {
            self.quoted(p)?
        } else {
            if let Some(m) = self.indicator(p) {
                return Err(self.err(m, p));
            }
            let mut i = p;
            while i < self.s.len() && self.s[i] != '\n' && self.s[i] != '\r' && !(self.s[i] == ':'
                && self.breaks(i + 1)) && !self.flow_indicator(i) && !self.comment(p, i)
                invariant
                    p <= i <= self.s@.len(),
                    flow_key_end(self.s@, open as int, p as int, p as int) == flow_key_end(
                        self.s@,
                        open as int,
                        p as int,
                        i as int,
                    ),
                decreases self.s@.len() - i,
            {
                i = i + 1;
            }
            if i >= self.s.len() {
                return Err(self.err("unclosed flow mapping", open));
            }
            if self.s[i] == '\n' || self.s[i] == '\r' {
                return Err(self.err("a flow mapping may not span lines", open));
            }
            if !(self.s[i] == ':' && self.breaks(i + 1)) && self.flow_indicator(i) {
                return Err(self.err("expected ':' after a flow mapping key", i));
            }
            let t = self.trimmed_tail(p, i);
            if t.len() == 0 {
                return Err(self.err("empty mapping key", p));
            }
            proof {
                lemma_trim_tail(self.s@, p as int, i as int);
            }
            (text::string_of(&t), i)
        };
        let r1 = self.spaces(r);
        if r1 < self.s.len() && self.s[r1] == ':' {
            Ok((key, r1 + 1))
        } else {
            Err(self.err("expected ':' after a flow mapping key", r1))
        }
    }
}

proof fn lemma_trim_tail(s: Seq<char>, p: int, e: int)
    requires
        0 <= p <= e <= s.len(),
    ensures
        trim_tail(s, p, e).len() <= e - p,
    decreases e - p,
{
    if p < e && (s[e - 1] == ' ' || s[e - 1] == '\t') {
        lemma_trim_tail(s, p, e - 1);
    }
}

proof fn lemma_yinsert_at(m: Seq<(Seq<char>, YValue)>, k: Seq<char>, v: YValue, i: int)
    requires
        0 <= i <= m.len(),
        forall|j: int| 0 <= j < i ==> (#[trigger] m[j]).0 != k && !text::seq_lt(k, m[j].0),
        i < m.len() ==> (m[i].0 == k || text::seq_lt(k, m[i].0)),
    ensures
        yinsert(m, k, v) == if i < m.len() && m[i].0 == k {
            m.update(i, (k, v))
        } else {
            m.insert(i, (k, v))
        },
    decreases m.len(),
{
    if m.len() == 0 {
        assert(m.insert(0, (k, v)) =~= seq![(k, v)]);
    } else if i == 0 {
        if m[0].0 == k {
            assert(m.update(0, (k, v)) =~= seq![(k, v)] + m.drop_first());
        } else {
            assert(m.insert(0, (k, v)) =~= seq![(k, v)] + m);
        }
    } else {
        let t = m.drop_first();
        assert forall|j: int| 0 <= j < i - 1 implies (#[trigger] t[j]).0 != k && !text::seq_lt(k, t[j].0) by {
            assert(t[j] == m[j + 1]);
        }
        lemma_yinsert_at(t, k, v, i - 1);
        if i < m.len() && m[i].0 == k {
            assert(m.update(i, (k, v)) =~= seq![m[0]] + t.update(i - 1, (k, v)));
        } else {
            assert(m.insert(i, (k, v)) =~= seq![m[0]] + t.insert(i - 1, (k, v)));
        }
    }
}

/// `k` set to `v` in a key-ordered mapping.
fn insert_member(m: &mut Vec<(String, Value)>, k: String, v: Value)
    ensures
        members_view(final(m)@) == yinsert(members_view(old(m)@), k@, yview(v)),
{
    let ghost mv = members_view(m@);
    let ghost kv = k@;
    let ghost vv = yview(v);
    let mut i: usize = 0;
    while i < m.len() && !text::same(m[i].0.as_str(), k.as_str()) && !text::less_str(
        k.as_str(),
        m[i].0.as_str(),
    )
        invariant
            i <= m@.len(),
            mv == members_view(m@),
            kv == k@,
            forall|j: int| 0 <= j < i ==> (#[trigger] mv[j]).0 != kv && !text::seq_lt(kv, mv[j].0),
        decreases m@.len() - i,
    {
        i = i + 1;
    }
    proof {
        lemma_yinsert_at(mv, kv, vv, i as int);
    }
    if i < m.len() && text::same(m[i].0.as_str(), k.as_str()) {
        m.set(i, (k, v));
        proof {
            assert(members_view(m@) =~= mv.update(i as int, (kv, vv)));
        }
    } else {
        m.insert(i, (k, v));
        proof {
            assert(members_view(m@) =~= mv.insert(i as int, (kv, vv)));
        }
    }
}

proof fn lemma_ypos(m: Seq<(Seq<char>, YValue)>, k: Seq<char>, i: int)
    requires
        0 <= i <= m.len(),
        forall|j: int| 0 <= j < i ==> (#[trigger] m[j]).0 != k && !text::seq_lt(k, m[j].0),
        i < m.len() ==> (m[i].0 == k || text::seq_lt(k, m[i].0)),
    ensures
        ypos(m, k) == i,
    decreases m.len(),
{
    if m.len() > 0 && i > 0 {
        let t = m.drop_first();
        assert forall|j: int| 0 <= j < i - 1 implies (#[trigger] t[j]).0 != k && !text::seq_lt(k, t[j].0) by {
            assert(t[j] == m[j + 1]);
        }
        lemma_ypos(t, k, i - 1);
    }
}

/// Where `k` is, or goes, in the mapping, and whether it is there.
fn position(m: &Vec<(String, Value)>, k: &str) -> (r: (usize, bool))
    ensures
        r.0 == ypos(members_view(m@), k@),
        r.0 <= m@.len(),
        r.1 == (yget(members_view(m@), k@) is Some),
        r.1 ==> r.0 < m@.len() && m@[r.0 as int].0@ == k@,
{
    let ghost mv = members_view(m@);
    let mut i: usize = 0;
    while i < m.len() && !text::same(m[i].0.as_str(), k) && !text::less_str(k, m[i].0.as_str())
        invariant
            i <= m@.len(),
            mv == members_view(m@),
            forall|j: int| 0 <= j < i ==> (#[trigger] mv[j]).0 != k@ && !text::seq_lt(k@, mv[j].0),
        decreases m@.len() - i,
    {
        i = i + 1;
    }
    proof {
        lemma_ypos(mv, k@, i as int);
    }
    let found = i < m.len() && text::same(m[i].0.as_str(), k);
    (i, found)
}

proof fn lemma_ypos_props(m: Seq<(Seq<char>, YValue)>, k: Seq<char>)
    ensures
        0 <= ypos(m, k) <= m.len(),
        forall|j: int| 0 <= j < ypos(m, k) ==> (#[trigger] m[j]).0 != k && !text::seq_lt(k, m[j].0),
        ypos(m, k) < m.len() ==> (m[ypos(m, k)].0 == k || text::seq_lt(k, m[ypos(m, k)].0)),
    decreases m.len(),
{
    if m.len() > 0 && !(m[0].0 == k || text::seq_lt(k, m[0].0)) {
        lemma_ypos_props(m.drop_first(), k);
        assert forall|j: int| 0 <= j < ypos(m, k) implies (#[trigger] m[j]).0 != k && !text::seq_lt(k, m[j].0) by {
            if j > 0 {
                assert(m[j] == m.drop_first()[j - 1]);
            }
        }
    }
}

/// `a`, then `b`, then `c`.
fn three(a: &str, b: &str, c: &str) -> (r: String)
    ensures
        r@ == a@ + b@ + c@,
{
    let mut r = text::owned(a);
    text::append(&mut r, b);
    text::append(&mut r, c);
    r
}

impl Parser {
    fn flow_value(&self, p: usize, d: u32) -> (r: Result<(Value, usize)>)
        requires
            self.ok(),
            p <= self.s@.len(),
            d <= MAX_DEPTH,
        ensures
            match flow_value(self.s@, p as int, d as int) {
                Ok((v, q)) => r matches Ok((x, q2)) && yview(x) == v && q2 == q,
                Err((w, at)) => r matches Err(e) && json::syntax_at(self.s@, w, at, e),
            },
            r matches Ok((_, q2)) ==> p < q2 <= self.s@.len(),
        decreases MAX_DEPTH - d, self.s@.len() - p, 1int,
    {
        if p < self.s.len() && (self.s[p] == '\'' || self.s[p] == '"') {
            let (t, q) = self.quoted(p)?;
            Ok((Value::String(t), q))
        } else if p < self.s.len() && self.s[p] == '{' {
            self.flow_mapping(p, d)
        } else if p < self.s.len() && self.s[p] == '[' {
            self.flow_sequence(p, d)
        } else {
            self.flow_scalar(p)
        }
    }

    fn flow_mapping(&self, open: usize, d: u32) -> (r: Result<(Value, usize)>)
        requires
            self.ok(),
            open < self.s@.len(),
            d <= MAX_DEPTH,
        ensures
            match flow_mapping(self.s@, open as int, d as int) {
                Ok((v, q)) => r matches Ok((x, q2)) && yview(x) == v && q2 == q,
                Err((w, at)) => r matches Err(e) && json::syntax_at(self.s@, w, at, e),
            },
            r matches Ok((_, q2)) ==> open < q2 <= self.s@.len(),
        decreases MAX_DEPTH - d, self.s@.len() - open, 0int,
    {
        if d + 1 > MAX_DEPTH {
            return Err(self.err("nesting deeper than 128", open));
        }
        let e = d + 1;
        let mut acc: Vec<(String, Value)> = Vec::new();
        let mut q = open + 1;
        proof {
            assert(members_view(acc@) =~= seq![]);
        }
        loop
            invariant
                self.ok(),
                open < q <= self.s@.len(),
                e == d + 1,
                e <= MAX_DEPTH,
                flow_mapping(self.s@, open as int, d as int) == flow_members(
                    self.s@,
                    open as int,
                    q as int,
                    e as int,
                    members_view(acc@),
                ),
            decreases self.s@.len() - q,
        {
            let q1 = self.spaces(q);
            if q1 < self.s.len() && self.s[q1] == '}' {
                proof {
                    lemma_yview_mapping(acc);
                }
                return Ok((Value::Mapping(acc), q1 + 1));
            }
            if q1 >= self.s.len() {
                return Err(self.err("unclosed flow mapping", open));
            }
            if self.s[q1] == '\n' || self.s[q1] == '\r' {
                return Err(self.err("a flow mapping may not span lines", open));
            }
            let (key, r) = self.flow_key(open, q1)?;
            let r1 = self.spaces(r);
            let (v, t) = self.flow_value(r1, e)?;
            let (_j, found) = position(&acc, key.as_str());
            if found {
                let m = three("duplicate key `", key.as_str(), "`");
                return Err(self.err(m.as_str(), q1));
            }
            let t1 = self.spaces(t);
            insert_member(&mut acc, key, v);
            if t1 < self.s.len() && self.s[t1] == ',' {
                q = t1 + 1;
            } else if t1 < self.s.len() && self.s[t1] == '}' {
                proof {
                    lemma_yview_mapping(acc);
                }
                return Ok((Value::Mapping(acc), t1 + 1));
            } else if t1 >= self.s.len() {
                return Err(self.err("unclosed flow mapping", open));
            } else if self.s[t1] == '\n' || self.s[t1] == '\r' {
                return Err(self.err("a flow mapping may not span lines", open));
            } else {
                return Err(self.err("expected ',' or '}'", t1));
            }
        }
    }

    fn flow_sequence(&self, open: usize, d: u32) -> (r: Result<(Value, usize)>)
        requires
            self.ok(),
            open < self.s@.len(),
            d <= MAX_DEPTH,
        ensures
            match flow_sequence(self.s@, open as int, d as int) {
                Ok((v, q)) => r matches Ok((x, q2)) && yview(x) == v && q2 == q,
                Err((w, at)) => r matches Err(e) && json::syntax_at(self.s@, w, at, e),
            },
            r matches Ok((_, q2)) ==> open < q2 <= self.s@.len(),
        decreases MAX_DEPTH - d, self.s@.len() - open, 0int,
    {
        if d + 1 > MAX_DEPTH {
            return Err(self.err("nesting deeper than 128", open));
        }
        let e = d + 1;
        let mut acc: Vec<Value> = Vec::new();
        let mut q = open + 1;
        proof {
            assert(yviews(acc@) =~= seq![]);
        }
        loop
            invariant
                self.ok(),
                open < q <= self.s@.len(),
                e == d + 1,
                e <= MAX_DEPTH,
                flow_sequence(self.s@, open as int, d as int) == flow_items(
                    self.s@,
                    open as int,
                    q as int,
                    e as int,
                    yviews(acc@),
                ),
            decreases self.s@.len() - q,
        {
            let q1 = self.spaces(q);
            if q1 < self.s.len() && self.s[q1] == ']' {
                proof {
                    lemma_yview_sequence(acc);
                }
                return Ok((Value::Sequence(acc), q1 + 1));
            }
            if q1 >= self.s.len() {
                return Err(self.err("unclosed flow sequence", open));
            }
            if self.s[q1] == '\n' || self.s[q1] == '\r' {
                return Err(self.err("a flow sequence may not span lines", open));
            }
            let (v, t) = self.flow_value(q1, e)?;
            let t1 = self.spaces(t);
            let ghost before = yviews(acc@);
            acc.push(v);
            proof {
                assert(yviews(acc@) =~= before.push(yview(v)));
            }
            if t1 < self.s.len() && self.s[t1] == ',' {
                q = t1 + 1;
            } else if t1 < self.s.len() && self.s[t1] == ']' {
                proof {
                    lemma_yview_sequence(acc);
                }
                return Ok((Value::Sequence(acc), t1 + 1));
            } else if t1 >= self.s.len() {
                return Err(self.err("unclosed flow sequence", open));
            } else if self.s[t1] == '\n' || self.s[t1] == '\r' {
                return Err(self.err("a flow sequence may not span lines", open));
            } else {
                return Err(self.err("expected ',' or ']'", t1));
            }
        }
    }

    /// A value that starts on the line of its key or its `-`.
    fn inline_value(&self, p: usize, d: u32) -> (r: Result<(Value, usize)>)
        requires
            self.ok(),
            p <= self.s@.len(),
            d <= MAX_DEPTH,
        ensures
            match inline_value(self.s@, p as int, d as int) {
                Ok((v, q)) => r matches Ok((x, q2)) && yview(x) == v && q2 == q,
                Err((w, at)) => r matches Err(e) && json::syntax_at(self.s@, w, at, e),
            },
            r matches Ok((_, q2)) ==> p <= q2 <= self.s@.len(),
    {
        if p < self.s.len() && (self.s[p] == '\'' || self.s[p] == '"' || self.s[p] == '{' || self.s[p] == '[') {
            self.flow_value(p, d)
        } else if self.dash(p) {
            Err(self.err("a sequence item may not start on its parent's line", p))
        } else {
            self.plain_scalar(p)
        }
    }
}

impl Parser {
    /// One block node whose first line starts at `p`, indented `indent`.
    fn block(&self, p: usize, indent: usize, d: u32) -> (r: Result<(Value, usize)>)
        requires
            self.ok(),
            p + indent < self.s@.len(),
            d <= MAX_DEPTH,
        ensures
            match block(self.s@, p as int, indent as int, d as int) {
                Ok((v, q)) => r matches Ok((x, q2)) && yview(x) == v && q2 == q,
                Err((w, at)) => r matches Err(e) && json::syntax_at(self.s@, w, at, e),
            },
            r matches Ok((_, q2)) ==> p <= q2 <= self.s@.len(),
        decreases MAX_DEPTH - d, self.s@.len() - p, 2int,
    {
        let head = p + indent;
        if self.s[head] == '{' || self.s[head] == '[' {
            let (v, t) = self.inline_value(head, d)?;
            let t2 = self.eol(t)?;
            return Ok((v, t2));
        }
        if self.dash(head) {
            self.sequence(p, indent, d)
        } else {
            self.mapping(p, indent, d)
        }
    }

    fn mapping(&self, p: usize, indent: usize, d: u32) -> (r: Result<(Value, usize)>)
        requires
            self.ok(),
            p <= self.s@.len(),
            d <= MAX_DEPTH,
        ensures
            match mapping(self.s@, p as int, indent as int, d as int) {
                Ok((v, q)) => r matches Ok((x, q2)) && yview(x) == v && q2 == q,
                Err((w, at)) => r matches Err(e) && json::syntax_at(self.s@, w, at, e),
            },
            r matches Ok((_, q2)) ==> p <= q2 <= self.s@.len(),
        decreases MAX_DEPTH - d, self.s@.len() - p, 1int,
    {
        if d + 1 > MAX_DEPTH {
            return Err(self.err("nesting deeper than 128", p));
        }
        let e = d + 1;
        let mut acc: Vec<(String, Value)> = Vec::new();
        let mut q = p;
        proof {
            assert(members_view(acc@) =~= seq![]);
        }
        loop
            invariant
                self.ok(),
                p <= q <= self.s@.len(),
                e == d + 1,
                e <= MAX_DEPTH,
                mapping(self.s@, p as int, indent as int, d as int) == members(
                    self.s@,
                    q as int,
                    indent as int,
                    e as int,
                    members_view(acc@),
                ),
            decreases self.s@.len() - q,
        {
            let (found, q0, _st) = self.next_content(q, true)?;
            let n = match found {
                None => {
                    proof {
                        lemma_yview_mapping(acc);
                    }
                    return Ok((Value::Mapping(acc), q0));
                },
                Some(n) => n,
            };
            if n < indent {
                proof {
                    lemma_yview_mapping(acc);
                }
                return Ok((Value::Mapping(acc), q0));
            }
            if n > indent {
                return Err(self.err("unexpected indentation", q0 + n));
            }
            let k0 = q0 + n;
            if self.dash(k0) {
                return Err(self.err("a block sequence must be indented under its key, not level with it", k0));
            }
            let (key, r) = self.key(k0)?;
            let r1 = self.spaces(r);
            let (v, w) = if self.line_done(r1) {
                let t = self.eol(r1)?;
                let (under, t2, _) = self.next_content(t, true)?;
                match under {
                    Some(deeper) => {
                        if deeper > indent {
                            self.block(t2, deeper, e)?
                        } else {
                            (Value::Null, t2)
                        }
                    },
                    None => (Value::Null, t2),
                }
            } else {
                let (v, t) = self.inline_value(r1, e)?;
                let t2 = self.eol(t)?;
                (v, t2)
            };
            let (_j, dup) = position(&acc, key.as_str());
            if dup {
                let m = three("duplicate key `", key.as_str(), "`");
                return Err(self.err(m.as_str(), k0));
            }
            insert_member(&mut acc, key, v);
            q = w;
        }
    }

    fn sequence(&self, p: usize, indent: usize, d: u32) -> (r: Result<(Value, usize)>)
        requires
            self.ok(),
            p <= self.s@.len(),
            d <= MAX_DEPTH,
        ensures
            match sequence(self.s@, p as int, indent as int, d as int) {
                Ok((v, q)) => r matches Ok((x, q2)) && yview(x) == v && q2 == q,
                Err((w, at)) => r matches Err(e) && json::syntax_at(self.s@, w, at, e),
            },
            r matches Ok((_, q2)) ==> p <= q2 <= self.s@.len(),
    {
        if d + 1 > MAX_DEPTH {
            return Err(self.err("nesting deeper than 128", p));
        }
        let e = d + 1;
        let mut acc: Vec<Value> = Vec::new();
        let mut q = p;
        proof {
            assert(yviews(acc@) =~= seq![]);
        }
        loop
            invariant
                self.ok(),
                p <= q <= self.s@.len(),
                e == d + 1,
                e <= MAX_DEPTH,
                sequence(self.s@, p as int, indent as int, d as int) == seq_items(
                    self.s@,
                    q as int,
                    indent as int,
                    e as int,
                    yviews(acc@),
                ),
            decreases self.s@.len() - q,
        {
            let (found, q0, _st) = self.next_content(q, true)?;
            let n = match found {
                None => {
                    proof {
                        lemma_yview_sequence(acc);
                    }
                    return Ok((Value::Sequence(acc), q0));
                },
                Some(n) => n,
            };
            if n < indent {
                proof {
                    lemma_yview_sequence(acc);
                }
                return Ok((Value::Sequence(acc), q0));
            }
            if n > indent {
                return Err(self.err("unexpected indentation", q0 + n));
            }
            let k = q0 + n;
            if !self.dash(k) {
                return Err(self.err("expected '- ' to continue the sequence", k));
            }
            let v0 = self.spaces(k + 1);
            if self.line_done(v0) {
                return Err(self.err("expected a value after '-'", v0));
            }
            let (v, t) = self.inline_value(v0, e)?;
            let w = self.eol(t)?;
            let ghost before = yviews(acc@);
            acc.push(v);
            proof {
                assert(yviews(acc@) =~= before.push(yview(v)));
            }
            q = w;
        }
    }
}

/// `src` read as one YAML document.
pub fn parse(src: &str) -> (r: Result<Value>)
    requires
        src@.len() < u32::MAX,
    ensures
        parsed(src@, r),
        r matches Ok(v) ==> ysorted(yview(v)),
{
    proof {
        lemma_parsed_sorted(src@);
    }
    let all = text::chars_of(src);
    let s = if all.len() > 0 && all[0] == '\u{feff}' {
        text::slice(&all, 1, all.len())
    } else {
        all
    };
    proof {
        assert(s@ =~= toml::body(src@));
    }
    let p = Parser { s };
    let (found, q, st) = p.next_content(0, false)?;
    let indent = match found {
        None => {
            return Ok(Value::Null);
        },
        Some(n) => n,
    };
    let (doc, r) = p.block(q, indent, 0)?;
    let (more, q2, _) = p.next_content(r, st)?;
    match more {
        Some(n) => Err(p.err("this line is outdented past the start of the document", q2 + n)),
        None => Ok(doc),
    }
}

impl Value {
    /// The member `key` of a mapping; `None` for a missing key or a
    /// non-mapping.
    pub fn get(&self, key: &str) -> (r: Option<&Value>)
        ensures
            match yview(*self) {
                YValue::Dict(m) => match yget(m, key@) {
                    Some(v) => r matches Some(x) && yview(*x) == v,
                    None => r is None,
                },
                _ => r is None,
            },
    {
        match self {
            Value::Mapping(m) => {
                proof {
                    lemma_yview_mapping(*m);
                }
                let (j, found) = position(m, key);
                if found {
                    proof {
                        assert(members_view(m@)[j as int] == (m@[j as int].0@, yview(m@[j as int].1)));
                    }
                    Some(&m[j].1)
                } else {
                    None
                }
            },
            _ => None,
        }
    }

    pub fn as_str(&self) -> (r: Option<&str>)
        ensures
            match yview(*self) {
                YValue::Str(s) => r matches Some(x) && x@ == s,
                _ => r is None,
            },
    {
        match self {
            Value::String(s) => Some(s.as_str()),
            _ => None,
        }
    }

    pub fn as_bool(&self) -> (r: Option<bool>)
        ensures
            match yview(*self) {
                YValue::Bool(b) => r == Some(b),
                _ => r is None,
            },
    {
        match self {
            Value::Bool(b) => Some(*b),
            _ => None,
        }
    }

    pub fn as_sequence(&self) -> (r: Option<&[Value]>)
        ensures
            match *self {
                Value::Sequence(items) => r matches Some(x) && x@ == items@,
                _ => r is None,
            },
    {
        match self {
            Value::Sequence(items) => Some(items.as_slice()),
            _ => None,
        }
    }

    /// The members of a mapping, keys in byte order, each once.
    pub fn as_mapping(&self) -> (r: Option<&Vec<(String, Value)>>)
        ensures
            match *self {
                Value::Mapping(m) => r matches Some(x) && x@ == m@,
                _ => r is None,
            },
    {
        match self {
            Value::Mapping(m) => Some(m),
            _ => None,
        }
    }
}

/// A mapping's keys, strictly in byte order: each once.
pub open spec fn keys_sorted(m: Seq<(Seq<char>, YValue)>) -> bool {
    forall|i: int, j: int| 0 <= i < j < m.len() ==> text::seq_lt(#[trigger] m[i].0, #[trigger] m[j].0)
}

/// Every key of `m` sorts after `b`.
pub open spec fn keys_above(m: Seq<(Seq<char>, YValue)>, b: Seq<char>) -> bool {
    forall|i: int| 0 <= i < m.len() ==> text::seq_lt(b, #[trigger] m[i].0)
}

proof fn lemma_yinsert_above(m: Seq<(Seq<char>, YValue)>, k: Seq<char>, v: YValue, b: Seq<char>)
    requires
        keys_above(m, b),
        text::seq_lt(b, k),
    ensures
        keys_above(yinsert(m, k, v), b),
    decreases m.len(),
{
    if m.len() > 0 && m[0].0 != k && !text::seq_lt(k, m[0].0) {
        let rest = m.drop_first();
        assert forall|i: int| 0 <= i < rest.len() implies text::seq_lt(b, #[trigger] rest[i].0) by {
            assert(rest[i] == m[i + 1]);
        }
        lemma_yinsert_above(rest, k, v, b);
        let t = yinsert(rest, k, v);
        assert forall|i: int| 0 <= i < yinsert(m, k, v).len() implies text::seq_lt(b, #[trigger] yinsert(m, k, v)[i].0) by {
            if i > 0 {
                assert(yinsert(m, k, v)[i] == t[i - 1]);
            }
        }
    } else if m.len() > 0 && m[0].0 == k {
        assert forall|i: int| 0 <= i < yinsert(m, k, v).len() implies text::seq_lt(b, #[trigger] yinsert(m, k, v)[i].0) by {
            if i > 0 {
                assert(yinsert(m, k, v)[i] == m[i]);
            }
        }
    } else if m.len() > 0 {
        assert forall|i: int| 0 <= i < yinsert(m, k, v).len() implies text::seq_lt(b, #[trigger] yinsert(m, k, v)[i].0) by {
            if i > 0 {
                assert(yinsert(m, k, v)[i] == m[i - 1]);
            }
        }
    }
}

/// Setting a key keeps a mapping in byte order, each key once; reading that
/// key gives back what was set, and every other key reads as it did.
pub proof fn lemma_set_then_get(m: Seq<(Seq<char>, YValue)>, k: Seq<char>, v: YValue, other: Seq<char>)
    requires
        keys_sorted(m),
    ensures
        keys_sorted(yinsert(m, k, v)),
        yget(yinsert(m, k, v), k) == Some(v),
        other != k ==> yget(yinsert(m, k, v), other) == yget(m, other),
    decreases m.len(),
{
    let r = yinsert(m, k, v);
    text::lemma_lt_irreflexive(k);
    text::lemma_lt_total(k, other);
    if m.len() == 0 {
        text::lemma_lt_asymmetric(k, other);
    } else {
        let rest = m.drop_first();
        let h = m[0].0;
        text::lemma_lt_total(k, h);
        text::lemma_lt_total(other, h);
        text::lemma_lt_irreflexive(h);
        text::lemma_lt_irreflexive(other);
        assert forall|i: int, j: int| 0 <= i < j < rest.len() implies text::seq_lt(#[trigger] rest[i].0, #[trigger] rest[j].0) by {
            assert(rest[i] == m[i + 1] && rest[j] == m[j + 1]);
        }
        assert forall|i: int| 0 <= i < rest.len() implies text::seq_lt(h, #[trigger] rest[i].0) by {
            assert(rest[i] == m[i + 1]);
        }
        if h == k {
            assert(r == seq![(k, v)] + rest);
            assert(r.drop_first() =~= rest);
            assert forall|i: int, j: int| 0 <= i < j < r.len() implies text::seq_lt(#[trigger] r[i].0, #[trigger] r[j].0) by {
                if i > 0 {
                    assert(r[i] == m[i] && r[j] == m[j]);
                } else {
                    assert(r[j] == m[j]);
                }
            }
        } else if text::seq_lt(k, h) {
            assert(r == seq![(k, v)] + m);
            assert(r.drop_first() =~= m);
            assert forall|i: int, j: int| 0 <= i < j < r.len() implies text::seq_lt(#[trigger] r[i].0, #[trigger] r[j].0) by {
                if i > 0 {
                    assert(r[i] == m[i - 1] && r[j] == m[j - 1]);
                } else {
                    assert(r[j] == m[j - 1]);
                    if j > 1 {
                        text::lemma_lt_transitive(k, h, m[j - 1].0);
                    }
                }
            }
            if other != k && text::seq_lt(other, k) {
                text::lemma_lt_transitive(other, k, h);
                text::lemma_lt_asymmetric(other, h);
            }
            if other != k && !text::seq_lt(other, k) {
                text::lemma_lt_asymmetric(k, other);
            }
        } else {
            lemma_set_then_get(rest, k, v, other);
            let t = yinsert(rest, k, v);
            assert(r == seq![m[0]] + t);
            assert(r.drop_first() =~= t);
            text::lemma_lt_asymmetric(h, k);
            lemma_yinsert_above(rest, k, v, h);
            assert forall|i: int, j: int| 0 <= i < j < r.len() implies text::seq_lt(#[trigger] r[i].0, #[trigger] r[j].0) by {
                assert(r[j] == t[j - 1]);
                if i > 0 {
                    assert(r[i] == t[i - 1]);
                }
            }
        }
    }
}

/// Every mapping in `v`, however deep, keeps its keys strictly in byte order:
/// what a `BTreeMap` would give, each key once.
pub open spec fn ysorted(v: YValue) -> bool
    decreases v,
{
    match v {
        YValue::List(items) => forall|i: int| 0 <= i < items.len() ==> ysorted(#[trigger] items[i]),
        YValue::Dict(m) => keys_sorted(m) && forall|i: int| 0 <= i < m.len() ==> ysorted(#[trigger] m[i].1),
        _ => true,
    }
}

pub open spec fn dict_sorted(m: Seq<(Seq<char>, YValue)>) -> bool {
    keys_sorted(m) && forall|i: int| 0 <= i < m.len() ==> ysorted(#[trigger] m[i].1)
}

proof fn lemma_yinsert_values(m: Seq<(Seq<char>, YValue)>, k: Seq<char>, v: YValue)
    requires
        forall|i: int| 0 <= i < m.len() ==> ysorted(#[trigger] m[i].1),
        ysorted(v),
    ensures
        forall|i: int| 0 <= i < yinsert(m, k, v).len() ==> ysorted(#[trigger] yinsert(m, k, v)[i].1),
    decreases m.len(),
{
    let r = yinsert(m, k, v);
    if m.len() == 0 {
    } else if m[0].0 == k {
        assert forall|i: int| 0 <= i < r.len() implies ysorted(#[trigger] r[i].1) by {
            if i > 0 {
                assert(r[i] == m[i]);
            }
        }
    } else if text::seq_lt(k, m[0].0) {
        assert forall|i: int| 0 <= i < r.len() implies ysorted(#[trigger] r[i].1) by {
            if i > 0 {
                assert(r[i] == m[i - 1]);
            }
        }
    } else {
        let rest = m.drop_first();
        assert forall|i: int| 0 <= i < rest.len() implies ysorted(#[trigger] rest[i].1) by {
            assert(rest[i] == m[i + 1]);
        }
        lemma_yinsert_values(rest, k, v);
        let t = yinsert(rest, k, v);
        assert forall|i: int| 0 <= i < r.len() implies ysorted(#[trigger] r[i].1) by {
            if i > 0 {
                assert(r[i] == t[i - 1]);
            } else {
                assert(r[0] == m[0]);
            }
        }
    }
}

proof fn lemma_dict_insert(m: Seq<(Seq<char>, YValue)>, k: Seq<char>, v: YValue)
    requires
        dict_sorted(m),
        ysorted(v),
    ensures
        dict_sorted(yinsert(m, k, v)),
{
    lemma_set_then_get(m, k, v, k);
    lemma_yinsert_values(m, k, v);
}

proof fn lemma_list_push(items: Seq<YValue>, v: YValue)
    requires
        forall|i: int| 0 <= i < items.len() ==> ysorted(#[trigger] items[i]),
        ysorted(v),
    ensures
        forall|i: int| 0 <= i < items.push(v).len() ==> ysorted(#[trigger] items.push(v)[i]),
{
    assert forall|i: int| 0 <= i < items.push(v).len() implies ysorted(#[trigger] items.push(v)[i]) by {
        if i < items.len() {
            assert(items.push(v)[i] == items[i]);
        }
    }
}

proof fn lemma_scalar_sorted(t: Seq<char>)
    ensures
        ysorted(scalar(t)),
{
}

proof fn lemma_flow_value_sorted(s: Seq<char>, p: int, d: int)
    ensures
        flow_value(s, p, d) matches Ok((v, _)) ==> ysorted(v),
    decreases MAX_DEPTH - d, s.len() - p, 3int,
{
    if 0 <= p < s.len() && (s[p] == '\'' || s[p] == '"') {
    } else if 0 <= p < s.len() && s[p] == '{' {
        lemma_flow_mapping_sorted(s, p, d);
    } else if 0 <= p < s.len() && s[p] == '[' {
        lemma_flow_sequence_sorted(s, p, d);
    } else {
        match flow_end(s, p, p) {
            Ok(i) => lemma_scalar_sorted(trim_tail(s, p, i)),
            Err(_) => {},
        }
    }
}

proof fn lemma_flow_mapping_sorted(s: Seq<char>, open: int, d: int)
    ensures
        flow_mapping(s, open, d) matches Ok((v, _)) ==> ysorted(v),
    decreases MAX_DEPTH - d, s.len() - open, 2int,
{
    if !(d < 0 || d + 1 > MAX_DEPTH) {
        lemma_flow_members_sorted(s, open, open + 1, d + 1, seq![]);
    }
}

proof fn lemma_flow_members_sorted(
    s: Seq<char>,
    open: int,
    q: int,
    e: int,
    acc: Seq<(Seq<char>, YValue)>,
)
    requires
        dict_sorted(acc),
    ensures
        flow_members(s, open, q, e, acc) matches Ok((v, _)) ==> ysorted(v),
    decreases MAX_DEPTH - e + 1, s.len() - q + 1, 1int,
{
    let q1 = toml::spaces_end(s, q);
    if e > MAX_DEPTH {
    } else if 0 <= q1 < s.len() && s[q1] == '}' {
    } else if q1 < 0 || q1 >= s.len() {
    } else if s[q1] == '\n' || s[q1] == '\r' {
    } else {
        match flow_key(s, open, q1) {
            Err(_) => {},
            Ok((key, r)) => {
                let r1 = toml::spaces_end(s, r);
                lemma_flow_value_sorted(s, r1, e);
                match flow_value(s, r1, e) {
                    Err(_) => {},
                    Ok((v, t)) => if yget(acc, key) is None {
                        let t1 = toml::spaces_end(s, t);
                        let acc2 = yinsert(acc, key, v);
                        lemma_dict_insert(acc, key, v);
                        if t1 >= q && 0 <= t1 < s.len() && s[t1] == ',' {
                            lemma_flow_members_sorted(s, open, t1 + 1, e, acc2);
                        }
                    },
                }
            },
        }
    }
}

proof fn lemma_flow_sequence_sorted(s: Seq<char>, open: int, d: int)
    ensures
        flow_sequence(s, open, d) matches Ok((v, _)) ==> ysorted(v),
    decreases MAX_DEPTH - d, s.len() - open, 2int,
{
    if !(d < 0 || d + 1 > MAX_DEPTH) {
        lemma_flow_items_sorted(s, open, open + 1, d + 1, seq![]);
    }
}

proof fn lemma_flow_items_sorted(s: Seq<char>, open: int, q: int, e: int, acc: Seq<YValue>)
    requires
        forall|i: int| 0 <= i < acc.len() ==> ysorted(#[trigger] acc[i]),
    ensures
        flow_items(s, open, q, e, acc) matches Ok((v, _)) ==> ysorted(v),
    decreases MAX_DEPTH - e + 1, s.len() - q + 1, 1int,
{
    let q1 = toml::spaces_end(s, q);
    if e > MAX_DEPTH {
    } else if 0 <= q1 < s.len() && s[q1] == ']' {
    } else if q1 < 0 || q1 >= s.len() {
    } else if s[q1] == '\n' || s[q1] == '\r' {
    } else {
        lemma_flow_value_sorted(s, q1, e);
        match flow_value(s, q1, e) {
            Err(_) => {},
            Ok((v, t)) => {
                let t1 = toml::spaces_end(s, t);
                lemma_list_push(acc, v);
                if t1 >= q && 0 <= t1 < s.len() && s[t1] == ',' {
                    lemma_flow_items_sorted(s, open, t1 + 1, e, acc.push(v));
                }
            },
        }
    }
}

proof fn lemma_inline_sorted(s: Seq<char>, p: int, d: int)
    ensures
        inline_value(s, p, d) matches Ok((v, _)) ==> ysorted(v),
        after_value(s, inline_value(s, p, d)) matches Ok((v, _)) ==> ysorted(v),
{
    if 0 <= p < s.len() && (s[p] == '\'' || s[p] == '"' || s[p] == '{' || s[p] == '[') {
        lemma_flow_value_sorted(s, p, d);
    } else if is_dash(s, p) {
    } else {
        match plain_end(s, p, p) {
            Ok(i) => lemma_scalar_sorted(trim_tail(s, p, i)),
            Err(_) => {},
        }
    }
}

proof fn lemma_block_sorted(s: Seq<char>, p: int, indent: int, d: int)
    ensures
        block(s, p, indent, d) matches Ok((v, _)) ==> ysorted(v),
    decreases MAX_DEPTH - d, s.len() - p, 6int,
{
    let head = p + indent;
    if d < 0 || d > MAX_DEPTH {
    } else if 0 <= head < s.len() && (s[head] == '{' || s[head] == '[') {
        lemma_inline_sorted(s, head, d);
    } else if is_dash(s, head) {
        if !(d < 0 || d + 1 > MAX_DEPTH) {
            lemma_seq_items_sorted(s, p, indent, d + 1, seq![]);
        }
    } else {
        if !(d < 0 || d + 1 > MAX_DEPTH) {
            lemma_members_sorted(s, p, indent, d + 1, seq![]);
        }
    }
}

proof fn lemma_members_sorted(s: Seq<char>, p: int, indent: int, e: int, acc: Seq<(Seq<char>, YValue)>)
    requires
        dict_sorted(acc),
    ensures
        members(s, p, indent, e, acc) matches Ok((v, _)) ==> ysorted(v),
    decreases MAX_DEPTH - e + 1, s.len() - p, 4int,
{
    if e <= MAX_DEPTH {
        match next_content(s, p, true) {
            Ok((Some(n), q, _)) => if n == indent && !is_dash(s, q + n) {
                match key_spec(s, q + n) {
                    Err(_) => {},
                    Ok((key, r)) => {
                        let r1 = toml::spaces_end(s, r);
                        let val = if at_line_end(s, r1) {
                            match under(s, r1) {
                                Err(x) => Err(x),
                                Ok((Some(deeper), t2)) => if deeper > indent {
                                    lemma_block_sorted(s, t2, deeper, e);
                                    block(s, t2, deeper, e)
                                } else {
                                    Ok((YValue::Null, t2))
                                },
                                Ok((None, t2)) => Ok((YValue::Null, t2)),
                            }
                        } else {
                            lemma_inline_sorted(s, r1, e);
                            after_value(s, inline_value(s, r1, e))
                        };
                        match val {
                            Err(_) => {},
                            Ok((v, w)) => if yget(acc, key) is None && !(w <= p || w > s.len()) {
                                lemma_dict_insert(acc, key, v);
                                lemma_members_sorted(s, w, indent, e, yinsert(acc, key, v));
                            },
                        }
                    },
                }
            },
            _ => {},
        }
    }
}

proof fn lemma_seq_items_sorted(s: Seq<char>, p: int, indent: int, e: int, acc: Seq<YValue>)
    requires
        forall|i: int| 0 <= i < acc.len() ==> ysorted(#[trigger] acc[i]),
    ensures
        seq_items(s, p, indent, e, acc) matches Ok((v, _)) ==> ysorted(v),
    decreases MAX_DEPTH - e + 1, s.len() - p, 4int,
{
    if e <= MAX_DEPTH {
        match next_content(s, p, true) {
            Ok((Some(n), q, _)) => if n == indent && is_dash(s, q + n) {
                let v0 = toml::spaces_end(s, q + n + 1);
                if !at_line_end(s, v0) {
                    lemma_inline_sorted(s, v0, e);
                    match after_value(s, inline_value(s, v0, e)) {
                        Err(_) => {},
                        Ok((v, w)) => if !(w <= p || w > s.len()) {
                            lemma_list_push(acc, v);
                            lemma_seq_items_sorted(s, w, indent, e, acc.push(v));
                        },
                    }
                }
            },
            _ => {},
        }
    }
}

/// Every mapping a YAML document reads to keeps its keys strictly in byte
/// order, each once, however deep it sits.
pub proof fn lemma_parsed_sorted(src: Seq<char>)
    ensures
        parse_spec(src) matches Ok(v) ==> ysorted(v),
{
    let s = toml::body(src);
    match next_content(s, 0, false) {
        Ok((Some(indent), q, _)) => lemma_block_sorted(s, q, indent, 0),
        _ => {},
    }
}

} // verus!
