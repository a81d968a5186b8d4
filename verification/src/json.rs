//! A JSON reader, RFC 8259.
//!
//! The grammar is stated as spec functions over the input's characters, one
//! per production, each returning what it read and where it stopped, or what
//! was wrong and where. The parser below is proved to give exactly those
//! answers. Line and column are only computed when an error is built.
//!
//! Numbers are kept as the text that was validated against RFC 8259 section
//! 6: nothing in a lockfile does arithmetic on one.
use crate::error::{Error, Result};
use crate::text;
use vstd::prelude::*;

verus! {

/// Deeper than this and the parser stops, rather than letting a hostile file
/// walk it off the end of the stack.
pub const MAX_DEPTH: u32 = 128;

pub enum Value {
    Null,
    Bool(bool),
    /// The number exactly as written.
    Number(String),
    String(String),
    Array(Vec<Value>),
    /// Keys in byte order, each once: a repeated key keeps its last value.
    Object(Vec<(String, Value)>),
}

/// A JSON value as plain values.
pub enum JValue {
    Null,
    Bool(bool),
    Number(Seq<char>),
    Str(Seq<char>),
    Array(Seq<JValue>),
    Object(Seq<(Seq<char>, JValue)>),
}

pub open spec fn jview(v: Value) -> JValue
    decreases v,
{
    match v {
        Value::Null => JValue::Null,
        Value::Bool(b) => JValue::Bool(b),
        Value::Number(n) => JValue::Number(n@),
        Value::String(s) => JValue::Str(s@),
        Value::Array(items) => JValue::Array(
            Seq::new(
                items@.len(),
                |i: int|
                    if 0 <= i < items@.len() {
                        jview(items@[i])
                    } else {
                        JValue::Null
                    },
            ),
        ),
        Value::Object(m) => JValue::Object(
            Seq::new(
                m@.len(),
                |i: int|
                    if 0 <= i < m@.len() {
                        (m@[i].0@, jview(m@[i].1))
                    } else {
                        (seq![], JValue::Null)
                    },
            ),
        ),
    }
}

/// What a production read and where it stopped, or what was wrong and where.
pub type Parsed<T> = core::result::Result<(T, int), (Seq<char>, int)>;

pub open spec fn is_ws(c: char) -> bool {
    c == ' ' || c == '\t' || c == '\n' || c == '\r'
}

/// The first position at or after `p` that is not whitespace.
pub open spec fn ws_end(s: Seq<char>, p: int) -> int
    decreases s.len() - p,
{
    if 0 <= p < s.len() && is_ws(s[p]) {
        ws_end(s, p + 1)
    } else {
        p
    }
}

pub open spec fn is_hex(c: char) -> bool {
    ('0' <= c && c <= '9') || ('a' <= c && c <= 'f') || ('A' <= c && c <= 'F')
}

pub open spec fn hex_val(c: char) -> int {
    if '0' <= c && c <= '9' {
        c as int - '0' as int
    } else if 'a' <= c && c <= 'f' {
        c as int - 'a' as int + 10
    } else {
        c as int - 'A' as int + 10
    }
}

/// Whether the bytes from `p` on reach exactly four, counting `acc` already:
/// whether the fourth byte ends a character.
pub open spec fn hits_four(s: Seq<char>, p: int, acc: nat) -> bool
    decreases s.len() - p,
{
    if acc == 4 {
        true
    } else if acc > 4 || p < 0 || p >= s.len() {
        false
    } else {
        hits_four(s, p + 1, acc + text::char_utf8_len(s[p]))
    }
}

/// Four hex digits at `p`. The input is read as bytes: four bytes that do
/// not end on a character are a truncated escape.
pub open spec fn hex4_spec(s: Seq<char>, p: int) -> Parsed<int> {
    if 0 <= p && p + 4 <= s.len() && is_hex(s[p]) && is_hex(s[p + 1]) && is_hex(s[p + 2])
        && is_hex(s[p + 3]) {
        Ok(
            (
                hex_val(s[p]) * 4096 + hex_val(s[p + 1]) * 256 + hex_val(s[p + 2]) * 16 + hex_val(
                    s[p + 3],
                ),
                p + 4,
            ),
        )
    } else if hits_four(s, p, 0) {
        Err(("\\u escape needs four hex digits"@, p))
    } else {
        Err(("truncated \\u escape"@, p))
    }
}

/// `\uXXXX` after the `\u`, with a surrogate pair recombined. A surrogate
/// alone is refused rather than replaced.
pub open spec fn unicode_spec(s: Seq<char>, p: int) -> Parsed<char> {
    match hex4_spec(s, p) {
        Err(e) => Err(e),
        Ok((first, q)) => if 0xD800 <= first && first <= 0xDBFF {
            if !(q + 2 <= s.len() && s[q] == '\\' && s[q + 1] == 'u') {
                Err(("high surrogate not followed by a low surrogate"@, q))
            } else {
                match hex4_spec(s, q + 2) {
                    Err(e) => Err(e),
                    Ok((second, r)) => if !(0xDC00 <= second && second <= 0xDFFF) {
                        Err(("high surrogate followed by a non-surrogate"@, r))
                    } else {
                        Ok(
                            (
                                (0x10000 + (first - 0xD800) * 1024 + (second - 0xDC00)) as char,
                                r,
                            ),
                        )
                    },
                }
            }
        } else if 0xDC00 <= first && first <= 0xDFFF {
            Err(("low surrogate with no high surrogate"@, q))
        } else {
            Ok((first as char, q))
        },
    }
}

/// The first byte of `c`'s UTF-8 encoding, as the character with that code.
pub open spec fn lead_byte(c: char) -> char {
    let n = c as int;
    if n < 0x80 {
        c
    } else if n < 0x800 {
        (0xC0 + n / 64) as char
    } else if n < 0x10000 {
        (0xE0 + n / 4096) as char
    } else {
        (0xF0 + n / 262144) as char
    }
}

/// One escape, after its backslash.
pub open spec fn escape_spec(s: Seq<char>, p: int) -> Parsed<char> {
    if p < 0 || p >= s.len() {
        Err(("unterminated escape"@, p))
    } else {
        let b = s[p];
        if b == '"' {
            Ok(('"', p + 1))
        } else if b == '\\' {
            Ok(('\\', p + 1))
        } else if b == '/' {
            Ok(('/', p + 1))
        } else if b == 'b' {
            Ok(('\u{8}', p + 1))
        } else if b == 'f' {
            Ok(('\u{c}', p + 1))
        } else if b == 'n' {
            Ok(('\n', p + 1))
        } else if b == 'r' {
            Ok(('\r', p + 1))
        } else if b == 't' {
            Ok(('\t', p + 1))
        } else if b == 'u' {
            unicode_spec(s, p + 1)
        } else {
            Err(("unknown escape `\\"@ + seq![lead_byte(b)] + "`"@, p))
        }
    }
}

/// An escape always consumes its own characters.
pub proof fn lemma_escape_advances(s: Seq<char>, p: int)
    ensures
        escape_spec(s, p) matches Ok((c, q)) ==> q > p,
{
}

/// The rest of a string after `p`, its characters so far being `acc`.
/// Control characters must be escaped (RFC 8259 section 7).
pub open spec fn string_spec(s: Seq<char>, p: int, acc: Seq<char>) -> Parsed<Seq<char>>
    decreases s.len() - p,
{
    if p < 0 || p >= s.len() {
        Err(("unterminated string"@, p))
    } else if s[p] == '"' {
        Ok((acc, p + 1))
    } else if s[p] == '\\' {
        match escape_spec(s, p + 1) {
            Err(e) => Err(e),
            Ok((c, q)) => {
                proof {
                    lemma_escape_advances(s, p + 1);
                }
                string_spec(s, q, acc.push(c))
            },
        }
    } else if (s[p] as int) < 0x20 {
        Err(("unescaped control character in string"@, p))
    } else {
        string_spec(s, p + 1, acc.push(s[p]))
    }
}

pub open spec fn is_digit(c: char) -> bool {
    '0' <= c && c <= '9'
}

/// The end of the run of digits starting at `p`.
pub open spec fn digits_end(s: Seq<char>, p: int) -> int
    decreases s.len() - p,
{
    if 0 <= p < s.len() && is_digit(s[p]) {
        digits_end(s, p + 1)
    } else {
        p
    }
}

/// A number's fraction and exponent, from `b` where its integer part ends.
pub open spec fn number_tail(s: Seq<char>, p: int, b: int) -> Parsed<Seq<char>> {
    let dot = 0 <= b < s.len() && s[b] == '.';
    if dot && !(b + 1 < s.len() && is_digit(s[b + 1])) {
        Err(("expected a digit after '.'"@, p))
    } else {
        let c = if dot {
            digits_end(s, b + 1)
        } else {
            b
        };
        if 0 <= c < s.len() && (s[c] == 'e' || s[c] == 'E') {
            let f = if c + 1 < s.len() && (s[c + 1] == '+' || s[c + 1] == '-') {
                c + 2
            } else {
                c + 1
            };
            if !(f < s.len() && is_digit(s[f])) {
                Err(("expected a digit in the exponent"@, p))
            } else {
                Ok((s.subrange(p, digits_end(s, f)), digits_end(s, f)))
            }
        } else {
            Ok((s.subrange(p, c), c))
        }
    }
}

/// A number at `p`, by the grammar of RFC 8259 section 6.
pub open spec fn number_spec(s: Seq<char>, p: int) -> Parsed<Seq<char>> {
    let a = if 0 <= p < s.len() && s[p] == '-' {
        p + 1
    } else {
        p
    };
    if !(0 <= a < s.len() && is_digit(s[a])) {
        Err(("expected a digit"@, p))
    } else {
        let b = if s[a] == '0' {
            a + 1
        } else {
            digits_end(s, a)
        };
        number_tail(s, p, b)
    }
}

/// `word` at `p`.
pub open spec fn literal_spec(s: Seq<char>, p: int, word: Seq<char>) -> core::result::Result<
    int,
    (Seq<char>, int),
> {
    if 0 <= p && p + word.len() <= s.len() && s.subrange(p, p + word.len()) == word {
        Ok(p + word.len())
    } else {
        Err(("expected `"@ + word + "`"@, p))
    }
}

/// `m` with `k` set to `v`: keys stay in byte order and a repeated key takes
/// the later value.
pub open spec fn obj_insert(m: Seq<(Seq<char>, JValue)>, k: Seq<char>, v: JValue) -> Seq<
    (Seq<char>, JValue),
>
    decreases m.len(),
{
    if m.len() == 0 {
        seq![(k, v)]
    } else if m[0].0 == k {
        seq![(k, v)] + m.drop_first()
    } else if text::seq_lt(k, m[0].0) {
        seq![(k, v)] + m
    } else {
        seq![m[0]] + obj_insert(m.drop_first(), k, v)
    }
}

/// A value at `p`, `d` containers deep.
pub open spec fn value_spec(s: Seq<char>, p: int, d: int) -> Parsed<JValue>
    decreases 256 - 2 * d + 1, s.len() - p,
{
    if d < 0 || d > MAX_DEPTH {
        Err(("nesting deeper than 128"@, p))
    } else if p < 0 || p >= s.len() {
        Err(("unexpected end of input"@, p))
    } else {
        let c = s[p];
        if c == '{' {
            if d + 1 > MAX_DEPTH {
                Err(("nesting deeper than 128"@, p))
            } else {
                let q = ws_end(s, p + 1);
                if q < s.len() && s[q] == '}' {
                    Ok((JValue::Object(seq![]), q + 1))
                } else {
                    members_spec(s, q, d + 1, seq![])
                }
            }
        } else if c == '[' {
            if d + 1 > MAX_DEPTH {
                Err(("nesting deeper than 128"@, p))
            } else {
                let q = ws_end(s, p + 1);
                if q < s.len() && s[q] == ']' {
                    Ok((JValue::Array(seq![]), q + 1))
                } else {
                    items_spec(s, q, d + 1, seq![])
                }
            }
        } else if c == '"' {
            match string_spec(s, p + 1, seq![]) {
                Err(e) => Err(e),
                Ok((t, q)) => Ok((JValue::Str(t), q)),
            }
        } else if c == 't' {
            match literal_spec(s, p, "true"@) {
                Err(e) => Err(e),
                Ok(q) => Ok((JValue::Bool(true), q)),
            }
        } else if c == 'f' {
            match literal_spec(s, p, "false"@) {
                Err(e) => Err(e),
                Ok(q) => Ok((JValue::Bool(false), q)),
            }
        } else if c == 'n' {
            match literal_spec(s, p, "null"@) {
                Err(e) => Err(e),
                Ok(q) => Ok((JValue::Null, q)),
            }
        } else if c == '-' || is_digit(c) {
            match number_spec(s, p) {
                Err(e) => Err(e),
                Ok((t, q)) => Ok((JValue::Number(t), q)),
            }
        } else {
            Err(("expected a value"@, p))
        }
    }
}

/// Array items from `p` on, the ones read so far being `acc`.
pub open spec fn items_spec(s: Seq<char>, p: int, e: int, acc: Seq<JValue>) -> Parsed<JValue>
    decreases 256 - 2 * e + 2, s.len() - p,
{
    if e < 0 || e > MAX_DEPTH {
        Err(("nesting deeper than 128"@, p))
    } else {
        match value_spec(s, ws_end(s, p), e) {
            Err(x) => Err(x),
            Ok((v, q)) => {
                let r = ws_end(s, q);
                if r < p || r >= s.len() || (s[r] != ',' && s[r] != ']') {
                    Err(("expected ',' or ']'"@, r))
                } else if s[r] == ']' {
                    Ok((JValue::Array(acc.push(v)), r + 1))
                } else {
                    items_spec(s, r + 1, e, acc.push(v))
                }
            },
        }
    }
}

/// Object members from `p` on, the ones read so far being `acc`.
pub open spec fn members_spec(
    s: Seq<char>,
    p: int,
    e: int,
    acc: Seq<(Seq<char>, JValue)>,
) -> Parsed<JValue>
    decreases 256 - 2 * e + 2, s.len() - p,
{
    let k = ws_end(s, p);
    if e < 0 || e > MAX_DEPTH {
        Err(("nesting deeper than 128"@, p))
    } else if !(0 <= k < s.len() && s[k] == '"') {
        Err(("expected a key"@, k))
    } else {
        match string_spec(s, k + 1, seq![]) {
            Err(x) => Err(x),
            Ok((key, q)) => {
                let c = ws_end(s, q);
                if !(0 <= c < s.len() && s[c] == ':') {
                    Err(("expected ':'"@, c))
                } else {
                    match value_spec(s, ws_end(s, c + 1), e) {
                        Err(x) => Err(x),
                        Ok((v, t)) => {
                            let r = ws_end(s, t);
                            if r < p || r >= s.len() || (s[r] != ',' && s[r] != '}') {
                                Err(("expected ',' or '}'"@, r))
                            } else if s[r] == '}' {
                                Ok((JValue::Object(obj_insert(acc, key, v)), r + 1))
                            } else {
                                members_spec(s, r + 1, e, obj_insert(acc, key, v))
                            }
                        },
                    }
                }
            },
        }
    }
}

/// A whole document: one value, whitespace around it, nothing after.
pub open spec fn parse_spec(s: Seq<char>) -> Parsed<JValue> {
    match value_spec(s, ws_end(s, 0), 0) {
        Err(e) => Err(e),
        Ok((v, q)) => if ws_end(s, q) < s.len() {
            Err(("trailing content after the top-level value"@, ws_end(s, q)))
        } else {
            Ok((v, q))
        },
    }
}

/// How many newlines `s` holds.
pub open spec fn newlines(s: Seq<char>) -> nat
    decreases s.len(),
{
    if s.len() == 0 {
        0
    } else {
        newlines(s.drop_last()) + if s.last() == '\n' {
            1nat
        } else {
            0nat
        }
    }
}

/// Characters after the last newline of `s`.
pub open spec fn since_newline(s: Seq<char>) -> nat
    decreases s.len(),
{
    if s.len() == 0 {
        0
    } else if s.last() == '\n' {
        0
    } else {
        since_newline(s.drop_last()) + 1
    }
}

/// The error a parse failure at `at` is reported as: 1-based line, and the
/// column counted in characters.
pub open spec fn syntax_at(s: Seq<char>, what: Seq<char>, at: int, e: Error) -> bool {
    e matches Error::Syntax { what: w, line, col } && w@ == what && line == newlines(s.take(at)) + 1
        && col == since_newline(s.take(at)) + 1
}

/// What reading `src` gives: the value, or the error at its position.
pub open spec fn parsed(s: Seq<char>, r: Result<Value>) -> bool {
    match parse_spec(s) {
        Ok((v, _)) => r matches Ok(x) && jview(x) == v,
        Err((what, at)) => r matches Err(e) && syntax_at(s, what, at, e),
    }
}

/// The character with scalar value `n`, if there is one.
///
/// A wrapper around `char::from_u32`, which vstd gives no specification: the
/// contract claims what the standard library documents, that it is `Some`
/// exactly for the Unicode scalar values, below 0xD800 or from 0xE000 to
/// 0x10FFFF.
#[verifier::external_body]
pub(crate) fn char_from(n: u32) -> (c: Option<char>)
    ensures
        (n < 0xD800 || (0xE000 <= n && n <= 0x10FFFF)) ==> c == Some(n as char),
        !(n < 0xD800 || (0xE000 <= n && n <= 0x10FFFF)) ==> c is None,
{
    char::from_u32(n)
}

/// The input, as characters, that every production reads.
struct Parser {
    s: Vec<char>,
}

impl Parser {
    spec fn ok(&self) -> bool {
        self.s@.len() < u32::MAX
    }

    /// The syntax error `what` at position `at`.
    fn err(&self, what: &str, at: usize) -> (e: Error)
        requires
            self.ok(),
            at <= self.s@.len(),
        ensures
            syntax_at(self.s@, what@, at as int, e),
    {
        let mut line: u32 = 1;
        let mut col: u32 = 1;
        for i in 0..at
            invariant
                self.ok(),
                at <= self.s@.len(),
                line == newlines(self.s@.take(i as int)) + 1,
                col == since_newline(self.s@.take(i as int)) + 1,
                line <= i + 1,
                col <= i + 1,
        {
            proof {
                assert(self.s@.take(i + 1).drop_last() =~= self.s@.take(i as int));
            }
            if self.s[i] == '\n' {
                line = line + 1;
                col = 1;
            } else {
                col = col + 1;
            }
        }
        Error::syntax(what, line, col)
    }

    fn skip_ws(&self, p: usize) -> (q: usize)
        requires
            p <= self.s@.len(),
        ensures
            q == ws_end(self.s@, p as int),
            p <= q <= self.s@.len(),
    {
        let mut q = p;
        while q < self.s.len() && (self.s[q] == ' ' || self.s[q] == '\t' || self.s[q] == '\n'
            || self.s[q] == '\r')
            invariant
                p <= q <= self.s@.len(),
                ws_end(self.s@, q as int) == ws_end(self.s@, p as int),
            decreases self.s@.len() - q,
        {
            q = q + 1;
        }
        q
    }

    fn hex4(&self, p: usize) -> (r: Result<(u32, usize)>)
        requires
            self.ok(),
            p <= self.s@.len(),
        ensures
            match hex4_spec(self.s@, p as int) {
                Ok((n, q)) => r matches Ok((m, q2)) && m == n && q2 == q,
                Err((w, at)) => r matches Err(e) && syntax_at(self.s@, w, at, e),
            },
    {
        let s = &self.s;
        if 4 <= s.len() - p && hex(s[p]) && hex(s[p + 1]) && hex(s[p + 2]) && hex(s[p + 3]) {
            let n = hex_digit(s[p]) * 4096 + hex_digit(s[p + 1]) * 256 + hex_digit(s[p + 2]) * 16
                + hex_digit(s[p + 3]);
            return Ok((n, p + 4));
        }
        let mut q = p;
        let mut acc: usize = 0;
        while acc < 4 && q < s.len()
            invariant
                p <= q <= s@.len(),
                acc <= 7,
                hits_four(s@, q as int, acc as nat) == hits_four(s@, p as int, 0),
            decreases s@.len() - q,
        {
            let c = s[q];
            let w: usize = if '\u{80}' > c {
                1
            } else if '\u{800}' > c {
                2
            } else if '\u{10000}' > c {
                3
            } else {
                4
            };
            acc = acc + w;
            q = q + 1;
        }
        if acc == 4 {
            Err(self.err("\\u escape needs four hex digits", p))
        } else {
            Err(self.err("truncated \\u escape", p))
        }
    }

    fn unicode(&self, p: usize) -> (r: Result<(char, usize)>)
        requires
            self.ok(),
            p <= self.s@.len(),
        ensures
            match unicode_spec(self.s@, p as int) {
                Ok((c, q)) => r matches Ok((d, q2)) && d == c && q2 == q,
                Err((w, at)) => r matches Err(e) && syntax_at(self.s@, w, at, e),
            },
    {
        let (first, q) = self.hex4(p)?;
        if 0xD800 <= first && first <= 0xDBFF {
            if !(2 <= self.s.len() - q && self.s[q] == '\\' && self.s[q + 1] == 'u') {
                return Err(self.err("high surrogate not followed by a low surrogate", q));
            }
            let (second, r) = self.hex4(q + 2)?;
            if !(0xDC00 <= second && second <= 0xDFFF) {
                return Err(self.err("high surrogate followed by a non-surrogate", r));
            }
            let n: u32 = 0x10000 + (first - 0xD800) * 1024 + (second - 0xDC00);
            match char_from(n) {
                Some(c) => Ok((c, r)),
                None => Err(self.err("escape is not a Unicode scalar value", r)),
            }
        } else if 0xDC00 <= first && first <= 0xDFFF {
            Err(self.err("low surrogate with no high surrogate", q))
        } else {
            match char_from(first) {
                Some(c) => Ok((c, q)),
                None => Err(self.err("escape is not a Unicode scalar value", q)),
            }
        }
    }

    fn escape(&self, p: usize) -> (r: Result<(char, usize)>)
        requires
            self.ok(),
            p <= self.s@.len(),
        ensures
            match escape_spec(self.s@, p as int) {
                Ok((c, q)) => r matches Ok((d, q2)) && d == c && q2 == q,
                Err((w, at)) => r matches Err(e) && syntax_at(self.s@, w, at, e),
            },
    {
        if p >= self.s.len() {
            return Err(self.err("unterminated escape", p));
        }
        let b = self.s[p];
        if b == '"' {
            Ok(('"', p + 1))
        } else if b == '\\' {
            Ok(('\\', p + 1))
        } else if b == '/' {
            Ok(('/', p + 1))
        } else if b == 'b' {
            Ok(('\u{8}', p + 1))
        } else if b == 'f' {
            Ok(('\u{c}', p + 1))
        } else if b == 'n' {
            Ok(('\n', p + 1))
        } else if b == 'r' {
            Ok(('\r', p + 1))
        } else if b == 't' {
            Ok(('\t', p + 1))
        } else if b == 'u' {
            self.unicode(p + 1)
        } else {
            let mut what = text::owned("unknown escape `\\");
            text::push_char(&mut what, lead(b));
            text::append(&mut what, "`");
            proof {
                reveal_strlit("`");
                reveal_strlit("unknown escape `\\");
                assert(what@ =~= "unknown escape `\\"@ + seq![lead_byte(b)] + "`"@);
            }
            Err(self.err(what.as_str(), p))
        }
    }

    /// The string whose opening quote is just before `p`.
    fn string(&self, p: usize) -> (r: Result<(String, usize)>)
        requires
            self.ok(),
            p <= self.s@.len(),
        ensures
            match string_spec(self.s@, p as int, seq![]) {
                Ok((t, q)) => r matches Ok((x, q2)) && x@ == t && q2 == q && p < q2 <= self.s@.len(),
                Err((w, at)) => r matches Err(e) && syntax_at(self.s@, w, at, e),
            },
    {
        let mut out = String::new();
        let mut q = p;
        loop
            invariant
                self.ok(),
                p <= q <= self.s@.len(),
                string_spec(self.s@, q as int, out@) == string_spec(self.s@, p as int, seq![]),
            decreases self.s@.len() - q,
        {
            if q >= self.s.len() {
                return Err(self.err("unterminated string", q));
            }
            let c = self.s[q];
            if c == '"' {
                return Ok((out, q + 1));
            } else if c == '\\' {
                let (e, next) = self.escape(q + 1)?;
                text::push_char(&mut out, e);
                q = next;
            } else if ('\u{20}' > c) {
                return Err(self.err("unescaped control character in string", q));
            } else {
                text::push_char(&mut out, c);
                q = q + 1;
            }
        }
    }

    fn digits_from(&self, p: usize) -> (q: usize)
        requires
            p <= self.s@.len(),
        ensures
            q == digits_end(self.s@, p as int),
            p <= q <= self.s@.len(),
            p < self.s@.len() && is_digit(self.s@[p as int]) ==> q > p,
    {
        let mut q = p;
        while q < self.s.len() && '0' <= self.s[q] && self.s[q] <= '9'
            invariant
                p <= q <= self.s@.len(),
                digits_end(self.s@, q as int) == digits_end(self.s@, p as int),
            decreases self.s@.len() - q,
        {
            q = q + 1;
        }
        q
    }

    fn number(&self, p: usize) -> (r: Result<(String, usize)>)
        requires
            self.ok(),
            p <= self.s@.len(),
        ensures
            match number_spec(self.s@, p as int) {
                Ok((t, q)) => r matches Ok((x, q2)) && x@ == t && q2 == q && p < q2 <= self.s@.len(),
                Err((w, at)) => r matches Err(e) && syntax_at(self.s@, w, at, e),
            },
    {
        let s = &self.s;
        let a = if p < s.len() && s[p] == '-' {
            p + 1
        } else {
            p
        };
        if !(a < s.len() && '0' <= s[a] && s[a] <= '9') {
            return Err(self.err("expected a digit", p));
        }
        let b = if s[a] == '0' {
            a + 1
        } else {
            self.digits_from(a)
        };
        let dot = b < s.len() && s[b] == '.';
        if dot && !(b + 1 < s.len() && '0' <= s[b + 1] && s[b + 1] <= '9') {
            return Err(self.err("expected a digit after '.'", p));
        }
        let c = if dot {
            self.digits_from(b + 1)
        } else {
            b
        };
        let end = if c < s.len() && (s[c] == 'e' || s[c] == 'E') {
            let f = if c + 1 < s.len() && (s[c + 1] == '+' || s[c + 1] == '-') {
                c + 2
            } else {
                c + 1
            };
            if !(f < s.len() && '0' <= s[f] && s[f] <= '9') {
                return Err(self.err("expected a digit in the exponent", p));
            }
            self.digits_from(f)
        } else {
            c
        };
        proof {
            assert(number_spec(s@, p as int) == Ok::<(Seq<char>, int), (Seq<char>, int)>(
                (s@.subrange(p as int, end as int), end as int),
            ));
        }
        let t = text::slice(s, p, end);
        Ok((text::string_of(&t), end))
    }

    fn literal(&self, p: usize, word: &str) -> (r: Result<usize>)
        requires
            self.ok(),
            p <= self.s@.len(),
        ensures
            match literal_spec(self.s@, p as int, word@) {
                Ok(q) => r matches Ok(q2) && q2 == q,
                Err((w, at)) => r matches Err(e) && syntax_at(self.s@, w, at, e),
            },
            r matches Ok(q2) ==> q2 == p + word@.len() && q2 <= self.s@.len(),
    {
        let w = text::chars_of(word);
        if w.len() <= self.s.len() - p {
            let here = text::slice(&self.s, p, p + w.len());
            if text::same_chars(&here, &w) {
                return Ok(p + w.len());
            }
        }
        let mut what = text::owned("expected `");
        text::append(&mut what, word);
        text::append(&mut what, "`");
        Err(self.err(what.as_str(), p))
    }
}

pub(crate) fn hex(c: char) -> (r: bool)
    ensures
        r == is_hex(c),
{
    ('0' <= c && c <= '9') || ('a' <= c && c <= 'f') || ('A' <= c && c <= 'F')
}

pub(crate) fn hex_digit(c: char) -> (n: u32)
    requires
        is_hex(c),
    ensures
        n == hex_val(c),
        n < 16,
{
    if '0' <= c && c <= '9' {
        (c as u32) - ('0' as u32)
    } else if 'a' <= c && c <= 'f' {
        (c as u32) - ('a' as u32) + 10
    } else {
        (c as u32) - ('A' as u32) + 10
    }
}

pub(crate) fn lead(c: char) -> (r: char)
    ensures
        r == lead_byte(c),
{
    let n = c as u32;
    if n < 0x80 {
        c
    } else if n < 0x800 {
        ((0xC0 + n / 64) as u8) as char
    } else if n < 0x10000 {
        ((0xE0 + n / 4096) as u8) as char
    } else {
        ((0xF0 + n / 262144) as u8) as char
    }
}

pub open spec fn values_view(v: Seq<Value>) -> Seq<JValue> {
    v.map_values(|x: Value| jview(x))
}

pub open spec fn members_view(m: Seq<(String, Value)>) -> Seq<(Seq<char>, JValue)> {
    m.map_values(|x: (String, Value)| (x.0@, jview(x.1)))
}

/// An array's view is its items' views.
pub proof fn lemma_jview_array(items: Vec<Value>)
    ensures
        jview(Value::Array(items)) == JValue::Array(values_view(items@)),
{
    let a = match jview(Value::Array(items)) {
        JValue::Array(a) => a,
        _ => seq![],
    };
    assert(a.len() == items@.len());
    assert forall|i: int| 0 <= i < a.len() implies a[i] == values_view(items@)[i] by {}
    assert(a =~= values_view(items@));
}

/// An object's view is its members' views.
pub proof fn lemma_jview_object(m: Vec<(String, Value)>)
    ensures
        jview(Value::Object(m)) == JValue::Object(members_view(m@)),
{
    let a = match jview(Value::Object(m)) {
        JValue::Object(a) => a,
        _ => seq![],
    };
    assert(a.len() == m@.len());
    assert forall|i: int| 0 <= i < a.len() implies a[i] == members_view(m@)[i] by {}
    assert(a =~= members_view(m@));
}

proof fn lemma_obj_insert_at(m: Seq<(Seq<char>, JValue)>, k: Seq<char>, v: JValue, i: int)
    requires
        0 <= i <= m.len(),
        forall|j: int| 0 <= j < i ==> (#[trigger] m[j]).0 != k && !text::seq_lt(k, m[j].0),
        i < m.len() ==> (m[i].0 == k || text::seq_lt(k, m[i].0)),
    ensures
        obj_insert(m, k, v) == if i < m.len() && m[i].0 == k {
            m.update(i, (k, v))
        } else {
            m.insert(i, (k, v))
        },
    decreases m.len(),
{
    if m.len() == 0 {
        assert(m.insert(0, (k, v)) =~= seq![(k, v)]);
    } else if i == 0 {
        if m[0].0 == k {
            assert(m.update(0, (k, v)) =~= seq![(k, v)] + m.drop_first());
        } else {
            assert(m.insert(0, (k, v)) =~= seq![(k, v)] + m);
        }
    } else {
        let t = m.drop_first();
        assert forall|j: int| 0 <= j < i - 1 implies (#[trigger] t[j]).0 != k && !text::seq_lt(k, t[j].0) by {
            assert(t[j] == m[j + 1]);
        }
        lemma_obj_insert_at(t, k, v, i - 1);
        if i < m.len() && m[i].0 == k {
            assert(m.update(i, (k, v)) =~= seq![m[0]] + t.update(i - 1, (k, v)));
        } else {
            assert(m.insert(i, (k, v)) =~= seq![m[0]] + t.insert(i - 1, (k, v)));
        }
    }
}

/// `k` set to `v` in a key-ordered member list.
fn insert_member(m: &mut Vec<(String, Value)>, k: String, v: Value)
    ensures
        members_view(final(m)@) == obj_insert(members_view(old(m)@), k@, jview(v)),
{
    let ghost mv = members_view(m@);
    let ghost kv = k@;
    let ghost vv = jview(v);
    let mut i: usize = 0;
    while i < m.len() && !text::same(m[i].0.as_str(), k.as_str()) && !text::less_str(
        k.as_str(),
        m[i].0.as_str(),
    )
        invariant
            i <= m@.len(),
            mv == members_view(m@),
            kv == k@,
            forall|j: int| 0 <= j < i ==> (#[trigger] mv[j]).0 != kv && !text::seq_lt(kv, mv[j].0),
        decreases m@.len() - i,
    {
        i = i + 1;
    }
    proof {
        lemma_obj_insert_at(mv, kv, vv, i as int);
    }
    if i < m.len() && text::same(m[i].0.as_str(), k.as_str()) {
        m.set(i, (k, v));
        proof {
            assert(members_view(m@) =~= mv.update(i as int, (kv, vv)));
        }
    } else {
        m.insert(i, (k, v));
        proof {
            assert(members_view(m@) =~= mv.insert(i as int, (kv, vv)));
        }
    }
}

impl Parser {
    /// A value at `p`, `d` containers deep.
    fn value(&self, p: usize, d: u32) -> (r: Result<(Value, usize)>)
        requires
            self.ok(),
            p <= self.s@.len(),
            d <= MAX_DEPTH,
        ensures
            match value_spec(self.s@, p as int, d as int) {
                Ok((v, q)) => r matches Ok((x, q2)) && jview(x) == v && q2 == q,
                Err((w, at)) => r matches Err(e) && syntax_at(self.s@, w, at, e),
            },
            r matches Ok((_, q2)) ==> p < q2 <= self.s@.len(),
        decreases 256 - 2 * d + 1, self.s@.len() - p,
    {
        if p >= self.s.len() {
            return Err(self.err("unexpected end of input", p));
        }
        let c = self.s[p];
        if c == '{' || c == '[' {
            if d + 1 > MAX_DEPTH {
                return Err(self.err("nesting deeper than 128", p));
            }
            let q = self.skip_ws(p + 1);
            if c == '{' {
                if q < self.s.len() && self.s[q] == '}' {
                    let empty: Vec<(String, Value)> = Vec::new();
                    proof {
                        lemma_jview_object(empty);
                        assert(members_view(empty@) =~= seq![]);
                    }
                    return Ok((Value::Object(empty), q + 1));
                }
                self.members(q, d + 1)
            } else {
                if q < self.s.len() && self.s[q] == ']' {
                    let empty: Vec<Value> = Vec::new();
                    proof {
                        lemma_jview_array(empty);
                        assert(values_view(empty@) =~= seq![]);
                    }
                    return Ok((Value::Array(empty), q + 1));
                }
                self.items(q, d + 1)
            }
        } else if c == '"' {
            let (t, q) = self.string(p + 1)?;
            Ok((Value::String(t), q))
        } else if c == 't' {
            let q = self.literal(p, "true")?;
            proof {
                reveal_strlit("true");
            }
            Ok((Value::Bool(true), q))
        } else if c == 'f' {
            let q = self.literal(p, "false")?;
            proof {
                reveal_strlit("false");
            }
            Ok((Value::Bool(false), q))
        } else if c == 'n' {
            let q = self.literal(p, "null")?;
            proof {
                reveal_strlit("null");
            }
            Ok((Value::Null, q))
        } else if c == '-' || ('0' <= c && c <= '9') {
            let (t, q) = self.number(p)?;
            Ok((Value::Number(t), q))
        } else {
            Err(self.err("expected a value", p))
        }
    }

    /// Array items from `p`, `e` containers deep.
    fn items(&self, p: usize, e: u32) -> (r: Result<(Value, usize)>)
        requires
            self.ok(),
            p <= self.s@.len(),
            1 <= e <= MAX_DEPTH,
        ensures
            match items_spec(self.s@, p as int, e as int, seq![]) {
                Ok((v, q)) => r matches Ok((x, q2)) && jview(x) == v && q2 == q,
                Err((w, at)) => r matches Err(x) && syntax_at(self.s@, w, at, x),
            },
            r matches Ok((_, q2)) ==> p < q2 <= self.s@.len(),
        decreases 256 - 2 * e + 2, self.s@.len() - p,
    {
        let mut acc: Vec<Value> = Vec::new();
        let mut cur = p;
        proof {
            assert(values_view(acc@) =~= seq![]);
        }
        loop
            invariant
                self.ok(),
                p <= cur <= self.s@.len(),
                1 <= e <= MAX_DEPTH,
                items_spec(self.s@, cur as int, e as int, values_view(acc@)) == items_spec(
                    self.s@,
                    p as int,
                    e as int,
                    seq![],
                ),
            decreases self.s@.len() - cur,
        {
            let start = self.skip_ws(cur);
            let (v, q) = self.value(start, e)?;
            let r = self.skip_ws(q);
            if r >= self.s.len() || (self.s[r] != ',' && self.s[r] != ']') {
                return Err(self.err("expected ',' or ']'", r));
            }
            let ghost before = acc@;
            acc.push(v);
            proof {
                assert(values_view(acc@) =~= values_view(before).push(jview(v)));
            }
            if self.s[r] == ']' {
                proof {
                    lemma_jview_array(acc);
                }
                return Ok((Value::Array(acc), r + 1));
            }
            cur = r + 1;
        }
    }

    /// Object members from `p`, `e` containers deep.
    fn members(&self, p: usize, e: u32) -> (r: Result<(Value, usize)>)
        requires
            self.ok(),
            p <= self.s@.len(),
            1 <= e <= MAX_DEPTH,
        ensures
            match members_spec(self.s@, p as int, e as int, seq![]) {
                Ok((v, q)) => r matches Ok((x, q2)) && jview(x) == v && q2 == q,
                Err((w, at)) => r matches Err(x) && syntax_at(self.s@, w, at, x),
            },
            r matches Ok((_, q2)) ==> p < q2 <= self.s@.len(),
        decreases 256 - 2 * e + 2, self.s@.len() - p,
    {
        let mut acc: Vec<(String, Value)> = Vec::new();
        let mut cur = p;
        proof {
            assert(members_view(acc@) =~= seq![]);
        }
        loop
            invariant
                self.ok(),
                p <= cur <= self.s@.len(),
                1 <= e <= MAX_DEPTH,
                members_spec(self.s@, cur as int, e as int, members_view(acc@)) == members_spec(
                    self.s@,
                    p as int,
                    e as int,
                    seq![],
                ),
            decreases self.s@.len() - cur,
        {
            let k = self.skip_ws(cur);
            if !(k < self.s.len() && self.s[k] == '"') {
                return Err(self.err("expected a key", k));
            }
            let (key, q) = self.string(k + 1)?;
            let c = self.skip_ws(q);
            if !(c < self.s.len() && self.s[c] == ':') {
                return Err(self.err("expected ':'", c));
            }
            let start = self.skip_ws(c + 1);
            let (v, t) = self.value(start, e)?;
            let r = self.skip_ws(t);
            if r >= self.s.len() || (self.s[r] != ',' && self.s[r] != '}') {
                return Err(self.err("expected ',' or '}'", r));
            }
            insert_member(&mut acc, key, v);
            if self.s[r] == '}' {
                proof {
                    lemma_jview_object(acc);
                }
                return Ok((Value::Object(acc), r + 1));
            }
            cur = r + 1;
        }
    }
}

/// `src` read as one JSON document.
pub fn parse(src: &str) -> (r: Result<Value>)
    requires
        src@.len() < u32::MAX,
    ensures
        parsed(src@, r),
        r matches Ok(v) ==> jsorted(jview(v)),
{
    proof {
        lemma_parsed_sorted(src@);
    }
    let p = Parser { s: text::chars_of(src) };
    let start = p.skip_ws(0);
    let (v, q) = p.value(start, 0)?;
    let end = p.skip_ws(q);
    if end < p.s.len() {
        return Err(p.err("trailing content after the top-level value", end));
    }
    Ok(v)
}

/// The first member of `m` called `k`.
pub open spec fn jlookup(m: Seq<(Seq<char>, JValue)>, k: Seq<char>) -> Option<JValue>
    decreases m.len(),
{
    if m.len() == 0 {
        None
    } else if m[0].0 == k {
        Some(m[0].1)
    } else {
        jlookup(m.drop_first(), k)
    }
}

/// The value under `k` when `v` is an object that has one.
pub open spec fn jfield(v: JValue, k: Seq<char>) -> Option<JValue> {
    match v {
        JValue::Object(m) => jlookup(m, k),
        _ => None,
    }
}

proof fn lemma_jlookup_skip(m: Seq<(Seq<char>, JValue)>, k: Seq<char>, i: int)
    requires
        0 <= i <= m.len(),
        forall|j: int| 0 <= j < i ==> (#[trigger] m[j]).0 != k,
    ensures
        jlookup(m, k) == jlookup(m.skip(i), k),
    decreases i,
{
    if i > 0 {
        assert forall|j: int| 0 <= j < i - 1 implies (#[trigger] m.drop_first()[j]).0 != k by {
            assert(m.drop_first()[j] == m[j + 1]);
        }
        lemma_jlookup_skip(m.drop_first(), k, i - 1);
        assert(m.drop_first().skip(i - 1) =~= m.skip(i));
    } else {
        assert(m.skip(0) =~= m);
    }
}

/// The first member of `m` called `key`.
pub fn lookup<'a>(m: &'a Vec<(String, Value)>, key: &str) -> (r: Option<&'a Value>)
    ensures
        match jlookup(members_view(m@), key@) {
            None => r is None,
            Some(j) => r matches Some(x) && jview(*x) == j,
        },
{
    let ghost mv = members_view(m@);
    for i in 0..m.len()
        invariant
            mv == members_view(m@),
            forall|j: int| 0 <= j < i ==> (#[trigger] mv[j]).0 != key@,
    {
        if text::same(m[i].0.as_str(), key) {
            proof {
                lemma_jlookup_skip(mv, key@, i as int);
                assert(mv.skip(i as int)[0] == mv[i as int]);
            }
            return Some(&m[i].1);
        }
    }
    proof {
        lemma_jlookup_skip(mv, key@, mv.len() as int);
    }
    None
}

impl Value {
    /// The value under `key`, if this is an object that has one.
    pub fn get(&self, key: &str) -> (r: Option<&Value>)
        ensures
            match jfield(jview(*self), key@) {
                None => r is None,
                Some(j) => r matches Some(x) && jview(*x) == j,
            },
    {
        match self {
            Value::Object(m) => {
                proof {
                    lemma_jview_object(*m);
                }
                lookup(m, key)
            },
            _ => None,
        }
    }

    pub fn as_str(&self) -> (r: Option<&str>)
        ensures
            self matches Value::String(s) ==> r matches Some(t) && t@ == s@,
            !(self is String) ==> r is None,
    {
        match self {
            Value::String(s) => Some(s.as_str()),
            _ => None,
        }
    }

    pub fn as_bool(&self) -> (r: Option<bool>)
        ensures
            self matches Value::Bool(b) ==> r == Some(*b),
            !(self is Bool) ==> r is None,
    {
        match self {
            Value::Bool(b) => Some(*b),
            _ => None,
        }
    }

    pub fn as_object(&self) -> (r: Option<&Vec<(String, Value)>>)
        ensures
            self matches Value::Object(m) ==> r == Some(m),
            !(self is Object) ==> r is None,
    {
        match self {
            Value::Object(m) => Some(m),
            _ => None,
        }
    }

    pub fn as_array(&self) -> (r: Option<&[Value]>)
        ensures
            self matches Value::Array(v) ==> r matches Some(a) && a@ == v@,
            !(self is Array) ==> r is None,
    {
        match self {
            Value::Array(v) => Some(v.as_slice()),
            _ => None,
        }
    }
}

/// An object's keys, strictly in byte order: each once.
pub open spec fn keys_sorted(m: Seq<(Seq<char>, JValue)>) -> bool {
    forall|i: int, j: int| 0 <= i < j < m.len() ==> text::seq_lt(#[trigger] m[i].0, #[trigger] m[j].0)
}

/// Every key of `m` sorts after `b`.
pub open spec fn keys_above(m: Seq<(Seq<char>, JValue)>, b: Seq<char>) -> bool {
    forall|i: int| 0 <= i < m.len() ==> text::seq_lt(b, #[trigger] m[i].0)
}

proof fn lemma_insert_above(m: Seq<(Seq<char>, JValue)>, k: Seq<char>, v: JValue, b: Seq<char>)
    requires
        keys_above(m, b),
        text::seq_lt(b, k),
    ensures
        keys_above(obj_insert(m, k, v), b),
    decreases m.len(),
{
    if m.len() > 0 && m[0].0 != k && !text::seq_lt(k, m[0].0) {
        let rest = m.drop_first();
        assert forall|i: int| 0 <= i < rest.len() implies text::seq_lt(b, #[trigger] rest[i].0) by {
            assert(rest[i] == m[i + 1]);
        }
        lemma_insert_above(rest, k, v, b);
        let t = obj_insert(rest, k, v);
        assert forall|i: int| 0 <= i < obj_insert(m, k, v).len() implies text::seq_lt(b, #[trigger] obj_insert(m, k, v)[i].0) by {
            if i > 0 {
                assert(obj_insert(m, k, v)[i] == t[i - 1]);
            }
        }
    } else if m.len() > 0 && m[0].0 == k {
        assert forall|i: int| 0 <= i < obj_insert(m, k, v).len() implies text::seq_lt(b, #[trigger] obj_insert(m, k, v)[i].0) by {
            if i > 0 {
                assert(obj_insert(m, k, v)[i] == m[i]);
            }
        }
    } else if m.len() > 0 {
        assert forall|i: int| 0 <= i < obj_insert(m, k, v).len() implies text::seq_lt(b, #[trigger] obj_insert(m, k, v)[i].0) by {
            if i > 0 {
                assert(obj_insert(m, k, v)[i] == m[i - 1]);
            }
        }
    }
}

/// Setting a key keeps an object in byte order, each key once; reading that
/// key gives back what was set, and every other key reads as it did.
pub proof fn lemma_set_then_get(m: Seq<(Seq<char>, JValue)>, k: Seq<char>, v: JValue, other: Seq<char>)
    requires
        keys_sorted(m),
    ensures
        keys_sorted(obj_insert(m, k, v)),
        jlookup(obj_insert(m, k, v), k) == Some(v),
        other != k ==> jlookup(obj_insert(m, k, v), other) == jlookup(m, other),
    decreases m.len(),
{
    let r = obj_insert(m, k, v);
    text::lemma_lt_irreflexive(k);
    text::lemma_lt_total(k, other);
    if m.len() == 0 {
        text::lemma_lt_asymmetric(k, other);
    } else {
        let rest = m.drop_first();
        let h = m[0].0;
        text::lemma_lt_total(k, h);
        text::lemma_lt_total(other, h);
        text::lemma_lt_irreflexive(h);
        text::lemma_lt_irreflexive(other);
        assert forall|i: int, j: int| 0 <= i < j < rest.len() implies text::seq_lt(#[trigger] rest[i].0, #[trigger] rest[j].0) by {
            assert(rest[i] == m[i + 1] && rest[j] == m[j + 1]);
        }
        assert forall|i: int| 0 <= i < rest.len() implies text::seq_lt(h, #[trigger] rest[i].0) by {
            assert(rest[i] == m[i + 1]);
        }
        if h == k {
            assert(r == seq![(k, v)] + rest);
            assert(r.drop_first() =~= rest);
            if other != k {
                assert(jlookup(r, other) == jlookup(rest, other));
                assert(jlookup(m, other) == jlookup(rest, other));
            }
            assert forall|i: int, j: int| 0 <= i < j < r.len() implies text::seq_lt(#[trigger] r[i].0, #[trigger] r[j].0) by {
                if i > 0 {
                    assert(r[i] == m[i] && r[j] == m[j]);
                } else {
                    assert(r[j] == m[j]);
                }
            }
        } else if text::seq_lt(k, h) {
            assert(r == seq![(k, v)] + m);
            assert(r.drop_first() =~= m);
            if other != k {
                assert(jlookup(r, other) == jlookup(m, other));
            }
            assert forall|i: int, j: int| 0 <= i < j < r.len() implies text::seq_lt(#[trigger] r[i].0, #[trigger] r[j].0) by {
                if i > 0 {
                    assert(r[i] == m[i - 1] && r[j] == m[j - 1]);
                } else {
                    assert(r[j] == m[j - 1]);
                    if j > 1 {
                        text::lemma_lt_transitive(k, h, m[j - 1].0);
                    }
                }
            }
            if other != k && text::seq_lt(other, k) {
                text::lemma_lt_transitive(other, k, h);
                text::lemma_lt_asymmetric(other, h);
            }
            if other != k && !text::seq_lt(other, k) {
                text::lemma_lt_asymmetric(k, other);
            }
        } else {
            lemma_set_then_get(rest, k, v, other);
            let t = obj_insert(rest, k, v);
            assert(r == seq![m[0]] + t);
            assert(r.drop_first() =~= t);
            assert(r[0] == m[0]);
            assert(jlookup(r, k) == jlookup(t, k));
            if other != k && other != h {
                assert(jlookup(r, other) == jlookup(t, other));
                assert(jlookup(m, other) == jlookup(rest, other));
            }
            text::lemma_lt_asymmetric(h, k);
            lemma_insert_above(rest, k, v, h);
            assert forall|i: int, j: int| 0 <= i < j < r.len() implies text::seq_lt(#[trigger] r[i].0, #[trigger] r[j].0) by {
                assert(r[j] == t[j - 1]);
                if i > 0 {
                    assert(r[i] == t[i - 1]);
                }
            }
        }
    }
}

/// Every object in `v`, however deep, keeps its keys strictly in byte order:
/// what a `BTreeMap` would give, each key once.
pub open spec fn jsorted(v: JValue) -> bool
    decreases v,
{
    match v {
        JValue::Array(items) => forall|i: int| 0 <= i < items.len() ==> jsorted(#[trigger] items[i]),
        JValue::Object(m) => keys_sorted(m) && forall|i: int| 0 <= i < m.len() ==> jsorted(#[trigger] m[i].1),
        _ => true,
    }
}

pub open spec fn object_sorted(m: Seq<(Seq<char>, JValue)>) -> bool {
    keys_sorted(m) && forall|i: int| 0 <= i < m.len() ==> jsorted(#[trigger] m[i].1)
}

proof fn lemma_insert_values(m: Seq<(Seq<char>, JValue)>, k: Seq<char>, v: JValue)
    requires
        forall|i: int| 0 <= i < m.len() ==> jsorted(#[trigger] m[i].1),
        jsorted(v),
    ensures
        forall|i: int| 0 <= i < obj_insert(m, k, v).len() ==> jsorted(#[trigger] obj_insert(m, k, v)[i].1),
    decreases m.len(),
{
    let r = obj_insert(m, k, v);
    if m.len() == 0 {
    } else if m[0].0 == k {
        assert forall|i: int| 0 <= i < r.len() implies jsorted(#[trigger] r[i].1) by {
            if i > 0 {
                assert(r[i] == m[i]);
            }
        }
    } else if text::seq_lt(k, m[0].0) {
        assert forall|i: int| 0 <= i < r.len() implies jsorted(#[trigger] r[i].1) by {
            if i > 0 {
                assert(r[i] == m[i - 1]);
            }
        }
    } else {
        let rest = m.drop_first();
        assert forall|i: int| 0 <= i < rest.len() implies jsorted(#[trigger] rest[i].1) by {
            assert(rest[i] == m[i + 1]);
        }
        lemma_insert_values(rest, k, v);
        let t = obj_insert(rest, k, v);
        assert forall|i: int| 0 <= i < r.len() implies jsorted(#[trigger] r[i].1) by {
            if i > 0 {
                assert(r[i] == t[i - 1]);
            } else {
                assert(r[0] == m[0]);
            }
        }
    }
}

proof fn lemma_object_insert(m: Seq<(Seq<char>, JValue)>, k: Seq<char>, v: JValue)
    requires
        object_sorted(m),
        jsorted(v),
    ensures
        object_sorted(obj_insert(m, k, v)),
{
    lemma_set_then_get(m, k, v, k);
    lemma_insert_values(m, k, v);
}

proof fn lemma_value_sorted(s: Seq<char>, p: int, d: int)
    ensures
        value_spec(s, p, d) matches Ok((v, _)) ==> jsorted(v),
    decreases 256 - 2 * d + 1, s.len() - p,
{
    if !(d < 0 || d > MAX_DEPTH) && 0 <= p < s.len() && d + 1 <= MAX_DEPTH {
        let q = ws_end(s, p + 1);
        if s[p] == '{' && !(q < s.len() && s[q] == '}') {
            lemma_members_sorted(s, q, d + 1, seq![]);
        } else if s[p] == '[' && !(q < s.len() && s[q] == ']') {
            lemma_items_sorted(s, q, d + 1, seq![]);
        }
    }
}

proof fn lemma_items_sorted(s: Seq<char>, p: int, e: int, acc: Seq<JValue>)
    requires
        forall|i: int| 0 <= i < acc.len() ==> jsorted(#[trigger] acc[i]),
    ensures
        items_spec(s, p, e, acc) matches Ok((v, _)) ==> jsorted(v),
    decreases 256 - 2 * e + 2, s.len() - p,
{
    if !(e < 0 || e > MAX_DEPTH) {
        lemma_value_sorted(s, ws_end(s, p), e);
        match value_spec(s, ws_end(s, p), e) {
            Err(_) => {},
            Ok((v, q)) => {
                let r = ws_end(s, q);
                assert forall|i: int| 0 <= i < acc.push(v).len() implies jsorted(#[trigger] acc.push(v)[i]) by {
                    if i < acc.len() {
                        assert(acc.push(v)[i] == acc[i]);
                    }
                }
                if !(r < p || r >= s.len() || (s[r] != ',' && s[r] != ']')) && s[r] != ']' {
                    lemma_items_sorted(s, r + 1, e, acc.push(v));
                }
            },
        }
    }
}

proof fn lemma_members_sorted(s: Seq<char>, p: int, e: int, acc: Seq<(Seq<char>, JValue)>)
    requires
        object_sorted(acc),
    ensures
        members_spec(s, p, e, acc) matches Ok((v, _)) ==> jsorted(v),
    decreases 256 - 2 * e + 2, s.len() - p,
{
    let k = ws_end(s, p);
    if !(e < 0 || e > MAX_DEPTH) && 0 <= k < s.len() && s[k] == '"' {
        match string_spec(s, k + 1, seq![]) {
            Err(_) => {},
            Ok((key, q)) => {
                let c = ws_end(s, q);
                if 0 <= c < s.len() && s[c] == ':' {
                    lemma_value_sorted(s, ws_end(s, c + 1), e);
                    match value_spec(s, ws_end(s, c + 1), e) {
                        Err(_) => {},
                        Ok((v, t)) => {
                            let r = ws_end(s, t);
                            lemma_object_insert(acc, key, v);
                            if !(r < p || r >= s.len() || (s[r] != ',' && s[r] != '}')) && s[r] != '}' {
                                lemma_members_sorted(s, r + 1, e, obj_insert(acc, key, v));
                            }
                        },
                    }
                }
            },
        }
    }
}

/// Every object a JSON document reads to keeps its keys strictly in byte
/// order, each once, however deep it sits.
pub proof fn lemma_parsed_sorted(s: Seq<char>)
    ensures
        parse_spec(s) matches Ok((v, _)) ==> jsorted(v),
{
    lemma_value_sorted(s, ws_end(s, 0), 0);
}

} // verus!
