//! Rendering a scan, for a person and for a machine.
//!
//! Every renderer here returns the text it would print; writing it somewhere
//! is the caller's business.
use crate::corpus::Corpus;
use crate::diff::{self, Diff};
use crate::json::{self, JValue};
use crate::lock::{self, Tree};
use crate::rules::{self, Finding, FindingView, Rule, Severity};
use crate::term::{self, Style, Term};
use crate::text;
use vstd::prelude::*;

verus! {

/// Column floors, not fixed widths: `term::column` grows past them when a
/// name needs the room.
pub const NAME_MIN: usize = 24;

pub const HEAD_MIN: usize = 22;

/// The lowest score of the band a severity level opens.
pub open spec fn band_floor(level: int) -> int {
    if level >= 3 {
        75
    } else if level == 2 {
        50
    } else if level == 1 {
        25
    } else {
        1
    }
}

/// The worst severity level in `s`, or -1 when it is empty.
pub open spec fn worst_level(s: Seq<FindingView>) -> int
    decreases s.len(),
{
    if s.len() == 0 {
        -1
    } else {
        let w = worst_level(s.drop_last());
        let l = rules::severity_level(s.last().severity);
        if l > w {
            l
        } else {
            w
        }
    }
}

/// How many findings of `s` are at severity level `level`.
pub open spec fn count_level(s: Seq<FindingView>, level: int) -> nat
    decreases s.len(),
{
    if s.len() == 0 {
        0
    } else {
        count_level(s.drop_last(), level) + if rules::severity_level(s.last().severity) == level {
            1nat
        } else {
            0nat
        }
    }
}

/// A band for the worst severity present, and a place inside it for how many
/// findings share that severity. The term for volume saturates, so the band
/// can never be filled.
pub open spec fn risk_of(s: Seq<FindingView>) -> int {
    if s.len() == 0 {
        0
    } else {
        let n = count_level(s, worst_level(s));
        band_floor(worst_level(s)) + (24 * n) / (n + 8)
    }
}

proof fn lemma_worst_level_bounds(s: Seq<FindingView>)
    ensures
        s.len() == 0 ==> worst_level(s) == -1,
        s.len() > 0 ==> 0 <= worst_level(s) <= 3,
        count_level(s, worst_level(s)) <= s.len(),
        s.len() > 0 ==> count_level(s, worst_level(s)) >= 1,
    decreases s.len(),
{
    if s.len() > 0 {
        lemma_worst_level_bounds(s.drop_last());
        lemma_count_level_le(s.drop_last(), worst_level(s));
        let w = worst_level(s.drop_last());
        let l = rules::severity_level(s.last().severity);
        if l <= w {
            lemma_count_level_le(s.drop_last(), w);
        }
    }
}

proof fn lemma_count_level_le(s: Seq<FindingView>, level: int)
    ensures
        count_level(s, level) <= s.len(),
    decreases s.len(),
{
    if s.len() > 0 {
        lemma_count_level_le(s.drop_last(), level);
    }
}

/// The volume term never reaches the next band: it stays in `0..24`.
pub proof fn lemma_volume_term(n: nat)
    ensures
        0 <= (24 * n) / (n + 8) < 24,
{
    assert((24 * n) / (n + 8) < 24) by (nonlinear_arith)
        requires
            n >= 0,
    {
        assert(24 * n < 24 * (n + 8));
    }
}

/// More findings at one severity never lower the volume term.
pub proof fn lemma_volume_monotone(m: nat, n: nat)
    requires
        m <= n,
    ensures
        (24 * m) / (m + 8) <= (24 * n) / (n + 8),
{
    let a = (24 * m) / (m + 8);
    lemma_volume_term(m);
    assert(a * (m + 8) <= 24 * m) by (nonlinear_arith)
        requires
            a == (24 * m) / (m + 8),
            m >= 0,
    ;
    assert(a * (n + 8) <= 24 * n) by (nonlinear_arith)
        requires
            a * (m + 8) <= 24 * m,
            m <= n,
            a <= 24,
            a >= 0,
    {
        assert(a * (n + 8) == a * (m + 8) + a * (n - m));
        assert(a * (n - m) <= 24 * (n - m));
    }
    assert(a <= (24 * n) / (n + 8)) by (nonlinear_arith)
        requires
            a * (n + 8) <= 24 * n,
            n >= 0,
            a >= 0,
    ;
}

/// Every nonempty list of findings scores inside its worst severity's band,
/// and the bands do not overlap: each ends below the next one's floor.
pub proof fn lemma_risk_band(s: Seq<FindingView>)
    requires
        s.len() > 0,
    ensures
        band_floor(worst_level(s)) <= risk_of(s) < band_floor(worst_level(s)) + 24,
        worst_level(s) < 3 ==> band_floor(worst_level(s)) + 24 <= band_floor(worst_level(s) + 1),
{
    lemma_worst_level_bounds(s);
    lemma_volume_term(count_level(s, worst_level(s)));
}

/// A worse severity always outranks any number of a lesser one, and any
/// finding at all outranks none.
pub proof fn lemma_worse_severity_outranks(s: Seq<FindingView>, t: Seq<FindingView>)
    requires
        worst_level(s) > worst_level(t),
    ensures
        risk_of(s) > risk_of(t),
{
    lemma_worst_level_bounds(s);
    lemma_worst_level_bounds(t);
    lemma_risk_band(s);
    if t.len() > 0 {
        lemma_risk_band(t);
    }
}

/// With the same worst severity, more findings at it never score lower.
pub proof fn lemma_volume_moves_the_number(s: Seq<FindingView>, t: Seq<FindingView>)
    requires
        s.len() > 0,
        worst_level(s) == worst_level(t),
        count_level(s, worst_level(s)) <= count_level(t, worst_level(t)),
    ensures
        risk_of(s) <= risk_of(t),
{
    lemma_worst_level_bounds(s);
    lemma_volume_monotone(count_level(s, worst_level(s)), count_level(t, worst_level(t)));
}

/// The risk score of a list of findings.
pub fn risk(findings: &[Finding]) -> (r: u32)
    ensures
        r == risk_of(rules::views(findings@)),
{
    let ghost v = rules::views(findings@);
    let mut worst: i32 = -1;
    for i in 0..findings.len()
        invariant
            v == rules::views(findings@),
            worst == worst_level(v.take(i as int)),
            -1 <= worst <= 3,
    {
        proof {
            assert(v.take(i + 1).drop_last() =~= v.take(i as int));
            assert(v.take(i + 1).last() == findings@[i as int]@);
        }
        let l = findings[i].severity.level() as i32;
        if l > worst {
            worst = l;
        }
    }
    proof {
        assert(v.take(v.len() as int) =~= v);
    }
    if worst < 0 {
        return 0;
    }
    let mut n: u64 = 0;
    for i in 0..findings.len()
        invariant
            v == rules::views(findings@),
            worst == worst_level(v),
            n == count_level(v.take(i as int), worst as int),
            n <= i,
    {
        proof {
            assert(v.take(i + 1).drop_last() =~= v.take(i as int));
            assert(v.take(i + 1).last() == findings@[i as int]@);
        }
        if findings[i].severity.level() as i32 == worst {
            n = n + 1;
        }
    }
    proof {
        assert(v.take(v.len() as int) =~= v);
        lemma_worst_level_bounds(v);
        lemma_volume_term(n as nat);
    }
    let floor: u32 = if worst >= 3 {
        75
    } else if worst == 2 {
        50
    } else if worst == 1 {
        25
    } else {
        1
    };
    let wide = n as u128;
    let volume = (24 * wide) / (wide + 8);
    floor + volume as u32
}

/// `d` with a `,` before every group of three digits counted from the right.
pub open spec fn grouped(d: Seq<char>) -> Seq<char>
    decreases d.len(),
{
    if d.len() <= 3 {
        d
    } else {
        grouped(d.take(d.len() - 3)) + ","@ + d.skip(d.len() - 3)
    }
}

fn grouped_of(d: &Vec<char>, end: usize) -> (s: String)
    requires
        end <= d@.len(),
    ensures
        s@ == grouped(d@.take(end as int)),
    decreases end,
{
    if end <= 3 {
        text::string_of(&text::slice(d, 0, end))
    } else {
        let mut s = grouped_of(d, end - 3);
        text::append(&mut s, ",");
        let tail = text::string_of(&text::slice(d, end - 3, end));
        text::append(&mut s, tail.as_str());
        proof {
            let t = d@.take(end as int);
            assert(t.take(t.len() - 3) =~= d@.take(end - 3));
            assert(t.skip(t.len() - 3) =~= d@.subrange(end - 3, end as int));
        }
        s
    }
}

/// Digit grouping: `1234567` is `1,234,567`.
pub fn thousands(n: u64) -> (s: String)
    ensures
        s@ == grouped(text::decimal(n as nat)),
{
    let digits = text::decimal_of(n);
    let d = text::chars_of(digits.as_str());
    proof {
        assert(d@.take(d@.len() as int) =~= d@);
    }
    grouped_of(&d, d.len())
}

/// The lower-case hex digit for `d < 16`.
pub open spec fn hex_char(d: int) -> char {
    if d < 10 {
        (d + 48) as char
    } else {
        (d + 87) as char
    }
}

/// What RFC 8259 section 7 requires a string to escape, and nothing else.
pub open spec fn escape_char(c: char) -> Seq<char> {
    if c == '"' {
        "\\\""@
    } else if c == '\\' {
        "\\\\"@
    } else if c == '\n' {
        "\\n"@
    } else if c == '\r' {
        "\\r"@
    } else if c == '\t' {
        "\\t"@
    } else if (c as u32) < 0x20 {
        "\\u00"@ + seq![hex_char(((c as u32) / 16) as int), hex_char(((c as u32) % 16) as int)]
    } else {
        seq![c]
    }
}

pub open spec fn escaped(s: Seq<char>) -> Seq<char>
    decreases s.len(),
{
    if s.len() == 0 {
        seq![]
    } else {
        escaped(s.drop_last()) + escape_char(s.last())
    }
}

proof fn lemma_hex_char(d: int)
    requires
        0 <= d < 16,
    ensures
        json::is_hex(hex_char(d)),
        json::hex_val(hex_char(d)) == d,
{
}

/// Reading one escaped character where it was written gives that character
/// back and moves past it.
proof fn lemma_read_escaped_char(t: Seq<char>, q: int, c: char, acc: Seq<char>)
    requires
        0 <= q,
        q + escape_char(c).len() <= t.len(),
        t.subrange(q, q + escape_char(c).len()) == escape_char(c),
    ensures
        escape_char(c).len() > 0,
        json::string_spec(t, q, acc) == json::string_spec(t, q + escape_char(c).len(), acc.push(c)),
{
    let e = escape_char(c);
    reveal_strlit("\\\"");
    reveal_strlit("\\\\");
    reveal_strlit("\\n");
    reveal_strlit("\\r");
    reveal_strlit("\\t");
    reveal_strlit("\\u00");
    assert forall|k: int| 0 <= k < e.len() implies t[q + k] == #[trigger] e[k] by {
        assert(t.subrange(q, q + e.len())[k] == t[q + k]);
    }
    if c == '"' || c == '\\' || c == '\n' || c == '\r' || c == '\t' {
        assert(e.len() == 2 && e[0] == '\\');
        assert(t[q + 0] == e[0] && t[q + 1] == e[1]);
        json::lemma_escape_advances(t, q + 1);
    } else if (c as u32) < 0x20 {
        let n = c as u32;
        lemma_hex_char((n / 16) as int);
        lemma_hex_char((n % 16) as int);
        assert(e.len() == 6 && e[0] == '\\' && e[1] == 'u' && e[2] == '0' && e[3] == '0');
        assert(e[4] == hex_char((n / 16) as int) && e[5] == hex_char((n % 16) as int));
        assert(t[q + 0] == e[0] && t[q + 1] == e[1] && t[q + 2] == e[2] && t[q + 3] == e[3]);
        assert(t[q + 4] == e[4] && t[q + 5] == e[5]);
        assert(json::hex4_spec(t, q + 2) == Ok::<(int, int), (Seq<char>, int)>((n as int, q + 6)));
        assert(json::escape_spec(t, q + 1) == Ok::<(char, int), (Seq<char>, int)>((c, q + 6)));
        json::lemma_escape_advances(t, q + 1);
    } else {
        assert(e.len() == 1 && e[0] == c);
        assert(t[q + 0] == e[0]);
    }
}

/// Reading the escaped form of `s` gives `s` back.
proof fn lemma_read_escaped(t: Seq<char>, p: int, s: Seq<char>, acc: Seq<char>)
    requires
        0 <= p,
        p + escaped(s).len() <= t.len(),
        t.subrange(p, p + escaped(s).len()) == escaped(s),
    ensures
        json::string_spec(t, p, acc) == json::string_spec(t, p + escaped(s).len(), acc + s),
    decreases s.len(),
{
    if s.len() == 0 {
        assert(acc + s =~= acc);
    } else {
        let r = s.drop_last();
        let c = s.last();
        let er = escaped(r);
        let ec = escape_char(c);
        assert(escaped(s) == er + ec);
        assert(t.subrange(p, p + er.len()) =~= t.subrange(p, p + escaped(s).len()).subrange(0, er.len() as int));
        assert((er + ec).subrange(0, er.len() as int) =~= er);
        lemma_read_escaped(t, p, r, acc);
        let q = p + er.len();
        assert(t.subrange(q, q + ec.len()) =~= t.subrange(p, p + escaped(s).len()).subrange(
            er.len() as int,
            (er.len() + ec.len()) as int,
        ));
        assert((er + ec).subrange(er.len() as int, (er.len() + ec.len()) as int) =~= ec);
        lemma_read_escaped_char(t, q, c, acc + r);
        assert((acc + r).push(c) =~= acc + s);
    }
}

/// What `string` writes reads back through the JSON parser as the very
/// string it was given, taking the whole text.
pub proof fn lemma_string_reads_back(s: Seq<char>)
    ensures
        json::parse_spec(json_string(s)) == Ok::<(JValue, int), (Seq<char>, int)>(
            (JValue::Str(s), json_string(s).len() as int),
        ),
{
    reveal_strlit("\"");
    let t = json_string(s);
    let n = escaped(s).len() as int;
    assert(t.len() == n + 2);
    assert(t.subrange(1, 1 + n) =~= escaped(s));
    lemma_read_escaped(t, 1, s, seq![]);
    assert(seq![] + s =~= s);
    assert(t[0] == '"');
    assert(t[1 + n] == '"');
    assert(json::ws_end(t, 0) == 0);
    assert(json::ws_end(t, t.len() as int) == t.len());
}

/// `s` as a JSON string literal, quotes included.
pub open spec fn json_string(s: Seq<char>) -> Seq<char> {
    "\""@ + escaped(s) + "\""@
}

fn hex_of(d: u32) -> (c: char)
    requires
        d < 16,
    ensures
        c == hex_char(d as int),
{
    if d < 10 {
        ((d as u8) + 48) as char
    } else {
        ((d as u8) + 87) as char
    }
}

/// `s` as a JSON string literal: the escapes section 7 of RFC 8259 requires
/// and nothing else.
pub fn string(s: &str) -> (r: String)
    ensures
        r@ == json_string(s@),
{
    let chars = text::chars_of(s);
    let mut out = text::owned("\"");
    for i in 0..chars.len()
        invariant
            out@ == "\""@ + escaped(chars@.take(i as int)),
    {
        let c = chars[i];
        if c == '"' {
            text::append(&mut out, "\\\"");
        } else if c == '\\' {
            text::append(&mut out, "\\\\");
        } else if c == '\n' {
            text::append(&mut out, "\\n");
        } else if c == '\r' {
            text::append(&mut out, "\\r");
        } else if c == '\t' {
            text::append(&mut out, "\\t");
        } else if (c as u32) < 0x20 {
            text::append(&mut out, "\\u00");
            text::push_char(&mut out, hex_of((c as u32) / 16));
            text::push_char(&mut out, hex_of((c as u32) % 16));
        } else {
            text::push_char(&mut out, c);
        }
        proof {
            assert(chars@.take(i + 1).drop_last() =~= chars@.take(i as int));
            assert(chars@.take(i + 1).last() == c);
            assert(out@ =~= "\""@ + escaped(chars@.take(i + 1)));
        }
    }
    text::append(&mut out, "\"");
    proof {
        assert(chars@.take(chars@.len() as int) =~= chars@);
    }
    out
}

/// `package@version`, or the bare name when the finding has no single
/// version.
pub open spec fn label_of(f: FindingView) -> Seq<char> {
    if f.version.len() == 0 {
        f.package
    } else {
        f.package + "@"@ + f.version
    }
}

fn label(f: &Finding) -> (s: String)
    ensures
        s@ == label_of(f@),
{
    if f.version.as_str().is_empty() {
        f.package.clone()
    } else {
        let mut s = f.package.clone();
        text::append(&mut s, "@");
        text::append(&mut s, f.version.as_str());
        s
    }
}

pub open spec fn style_for(sev: Severity) -> Style {
    match sev {
        Severity::Critical => Style::Red,
        Severity::High => Style::Orange,
        Severity::Medium => Style::Yellow,
        Severity::Low => Style::Dim,
    }
}

fn style_of(sev: Severity) -> (s: Style)
    ensures
        s == style_for(sev),
{
    match sev {
        Severity::Critical => Style::Red,
        Severity::High => Style::Orange,
        Severity::Medium => Style::Yellow,
        Severity::Low => Style::Dim,
    }
}

/// `num / den` to the nearest whole number, a tie to the even one.
pub open spec fn round_even(num: int, den: int) -> int {
    let q = num / den;
    let r = num % den;
    if 2 * r > den {
        q + 1
    } else if 2 * r < den {
        q
    } else if q % 2 == 0 {
        q
    } else {
        q + 1
    }
}

/// `hits` as a percentage of `total`, to one decimal place, rounded from the
/// exact quotient with ties to even. A binary float would round a tie by
/// whichever side its nearest representable value fell on (one hit in 2000
/// is exactly 0.05%, which a double holds as a little more and prints as
/// `0.1`); counted in whole numbers there is no such value, and the tie goes
/// to the even digit, `0.0`.
pub open spec fn percent_text(hits: nat, total: nat) -> Seq<char> {
    let den = if total == 0 {
        1
    } else {
        total as int
    };
    let tenths = round_even((1000 * hits) as int, den);
    text::decimal((tenths / 10) as nat) + "."@ + text::decimal((tenths % 10) as nat)
}

/// The tail of a rule's summary line.
pub open spec fn note_text(rule: Rule, hits: nat, third_party: nat) -> Seq<char> {
    match rule {
        Rule::Slopsquat => seq![],
        Rule::Trivial => "("@ + percent_text(hits, third_party) + "% of third-party)"@,
        Rule::InstallScript => "arbitrary code at install time"@,
        Rule::Drift => "same package at 2+ versions in one tree"@,
        Rule::Pinning => "no exact version recorded"@,
    }
}

fn percent(hits: usize, total: usize) -> (s: String)
    ensures
        s@ == percent_text(hits as nat, total as nat),
{
    let den: u128 = if total == 0 {
        1
    } else {
        total as u128
    };
    let num: u128 = 1000 * (hits as u128);
    let q = num / den;
    let r = num % den;
    let tenths = if 2 * r > den {
        q + 1
    } else if 2 * r < den {
        q
    } else if q % 2 == 0 {
        q
    } else {
        q + 1
    };
    proof {
        assert(q <= num) by (nonlinear_arith)
            requires
                q == num / den,
                den >= 1,
                num >= 0,
        ;
    }
    let mut s = text::decimal_wide(tenths / 10);
    text::append(&mut s, ".");
    let f = text::decimal_wide(tenths % 10);
    text::append(&mut s, f.as_str());
    s
}

/// The tail of a rule's summary line, for rules that do not list every hit.
fn note(rule: Rule, hits: usize, tree: &Tree) -> (s: String)
    ensures
        s@ == note_text(rule, hits as nat, lock::count_third_party(tree.packages@)),
{
    match rule {
        Rule::Slopsquat => String::new(),
        Rule::Trivial => {
            let mut s = text::owned("(");
            let p = percent(hits, tree.third_party());
            text::append(&mut s, p.as_str());
            text::append(&mut s, "% of third-party)");
            s
        },
        Rule::InstallScript => text::owned("arbitrary code at install time"),
        Rule::Drift => text::owned("same package at 2+ versions in one tree"),
        Rule::Pinning => text::owned("no exact version recorded"),
    }
}

pub open spec fn finding_json(f: FindingView) -> Seq<char> {
    "{\"rule\":"@ + json_string(rules::rule_id(f.rule)) + ",\"severity\":"@ + json_string(
        rules::severity_name(f.severity),
    ) + ",\"package\":"@ + json_string(f.package) + ",\"version\":"@ + json_string(f.version)
        + ",\"detail\":"@ + json_string(f.detail) + "}"@
}

/// The findings as JSON objects, comma-separated.
pub open spec fn findings_json(s: Seq<FindingView>) -> Seq<char> {
    text::join(s.map_values(|f: FindingView| finding_json(f)), ","@)
}

/// The strings as JSON string literals, comma-separated.
pub open spec fn strings_json(s: Seq<Seq<char>>) -> Seq<char> {
    text::join(s.map_values(|x: Seq<char>| json_string(x)), ","@)
}

pub open spec fn row_json(r: (Seq<char>, Seq<char>, Seq<char>)) -> Seq<char> {
    "{\"name\":"@ + json_string(r.0) + ",\"from\":"@ + json_string(r.1) + ",\"to\":"@
        + json_string(r.2) + "}"@
}

pub open spec fn rows_json(s: Seq<(Seq<char>, Seq<char>, Seq<char>)>) -> Seq<char> {
    text::join(s.map_values(|r: (Seq<char>, Seq<char>, Seq<char>)| row_json(r)), ","@)
}

/// Third-party packages that are not roots, never below zero.
pub open spec fn transitive_count(tree: &Tree) -> nat {
    let t = lock::count_third_party(tree.packages@);
    if t >= tree.roots@.len() {
        (t - tree.roots@.len()) as nat
    } else {
        0
    }
}

/// The scan as one JSON object and a newline. No timing: two scans of one
/// tree produce the same bytes.
pub open spec fn scan_json(tree: &Tree, s: Seq<FindingView>, silent: Seq<Rule>) -> Seq<char> {
    let p = tree.packages@;
    "{\"source\":"@ + json_string(term::sanitized(tree.source@)) + ",\"ecosystem\":"@
        + json_string(lock::ecosystem_name(tree.ecosystem)) + ",\"packages\":"@ + text::decimal(
        lock::count_third_party(p),
    ) + ",\"direct\":"@ + text::decimal(tree.roots@.len()) + ",\"transitive\":"@ + text::decimal(
        transitive_count(tree),
    ) + ",\"workspace\":"@ + text::decimal((p.len() - lock::count_third_party(p)) as nat)
        + ",\"integrity\":"@ + text::decimal(lock::count_with_integrity(p)) + ",\"risk\":"@
        + text::decimal(risk_of(s) as nat) + ",\"findings\":["@ + findings_json(s)
        + "],\"not_applicable\":["@ + strings_json(silent.map_values(|r: Rule| rules::rule_id(r)))
        + "]}\n"@
}

/// The diff as one JSON object and a newline.
pub open spec fn diff_json_text(d: Diff) -> Seq<char> {
    "{\"old\":"@ + json_string(d.old.source@) + ",\"new\":"@ + json_string(d.new.source@)
        + ",\"added\":["@ + strings_json(text::strings(d.added@)) + "],\"removed\":["@
        + strings_json(text::strings(d.removed@)) + "],\"changed\":["@ + rows_json(
        diff::rows(d.changed@),
    ) + "],\"introduced\":["@ + findings_json(rules::views(d.introduced@)) + "],\"resolved\":["@
        + findings_json(rules::views(d.resolved@)) + "]}\n"@
}

fn finding_object(f: &Finding) -> (s: String)
    ensures
        s@ == finding_json(f@),
{
    let mut s = text::owned("{\"rule\":");
    text::append(&mut s, string(f.rule.id()).as_str());
    text::append(&mut s, ",\"severity\":");
    text::append(&mut s, string(f.severity.name()).as_str());
    text::append(&mut s, ",\"package\":");
    text::append(&mut s, string(f.package.as_str()).as_str());
    text::append(&mut s, ",\"version\":");
    text::append(&mut s, string(f.version.as_str()).as_str());
    text::append(&mut s, ",\"detail\":");
    text::append(&mut s, string(f.detail.as_str()).as_str());
    text::append(&mut s, "}");
    s
}

fn findings_array(fs: &[Finding]) -> (s: String)
    ensures
        s@ == findings_json(rules::views(fs@)),
{
    let ghost pieces = rules::views(fs@).map_values(|f: FindingView| finding_json(f));
    let mut s = String::new();
    for i in 0..fs.len()
        invariant
            pieces == rules::views(fs@).map_values(|f: FindingView| finding_json(f)),
            s@ == text::join(pieces.take(i as int), ","@),
    {
        proof {
            assert(pieces.take(i + 1).drop_last() =~= pieces.take(i as int));
            assert(pieces[i as int] == finding_json(fs@[i as int]@));
            if i == 0 {
                assert(pieces.take(0) =~= Seq::<Seq<char>>::empty());
            }
        }
        if i > 0 {
            text::append(&mut s, ",");
        }
        let o = finding_object(&fs[i]);
        text::append(&mut s, o.as_str());
        proof {
            if i == 0 {
                assert(s@ =~= pieces.take(1)[0]);
            }
        }
    }
    proof {
        assert(pieces.take(fs@.len() as int) =~= pieces);
    }
    s
}

fn strings_array(items: &Vec<String>) -> (s: String)
    ensures
        s@ == strings_json(text::strings(items@)),
{
    let ghost pieces = text::strings(items@).map_values(|x: Seq<char>| json_string(x));
    let mut s = String::new();
    for i in 0..items.len()
        invariant
            pieces == text::strings(items@).map_values(|x: Seq<char>| json_string(x)),
            s@ == text::join(pieces.take(i as int), ","@),
    {
        proof {
            assert(pieces.take(i + 1).drop_last() =~= pieces.take(i as int));
            assert(pieces[i as int] == json_string(items@[i as int]@));
            if i == 0 {
                assert(pieces.take(0) =~= Seq::<Seq<char>>::empty());
            }
        }
        if i > 0 {
            text::append(&mut s, ",");
        }
        let o = string(items[i].as_str());
        text::append(&mut s, o.as_str());
        proof {
            if i == 0 {
                assert(s@ =~= pieces.take(1)[0]);
            }
        }
    }
    proof {
        assert(pieces.take(items@.len() as int) =~= pieces);
    }
    s
}

fn rule_ids_array(rs: &Vec<Rule>) -> (s: String)
    ensures
        s@ == strings_json(rs@.map_values(|r: Rule| rules::rule_id(r))),
{
    let ghost ids = rs@.map_values(|r: Rule| rules::rule_id(r));
    let ghost pieces = ids.map_values(|x: Seq<char>| json_string(x));
    let mut s = String::new();
    for i in 0..rs.len()
        invariant
            ids == rs@.map_values(|r: Rule| rules::rule_id(r)),
            pieces == ids.map_values(|x: Seq<char>| json_string(x)),
            s@ == text::join(pieces.take(i as int), ","@),
    {
        proof {
            assert(pieces.take(i + 1).drop_last() =~= pieces.take(i as int));
            assert(pieces[i as int] == json_string(rules::rule_id(rs@[i as int])));
            if i == 0 {
                assert(pieces.take(0) =~= Seq::<Seq<char>>::empty());
            }
        }
        if i > 0 {
            text::append(&mut s, ",");
        }
        let o = string(rs[i].id());
        text::append(&mut s, o.as_str());
        proof {
            if i == 0 {
                assert(s@ =~= pieces.take(1)[0]);
            }
        }
    }
    proof {
        assert(pieces.take(rs@.len() as int) =~= pieces);
    }
    s
}

fn rows_array(items: &Vec<(String, String, String)>) -> (s: String)
    ensures
        s@ == rows_json(diff::rows(items@)),
{
    let ghost pieces = diff::rows(items@).map_values(
        |r: (Seq<char>, Seq<char>, Seq<char>)| row_json(r),
    );
    let mut s = String::new();
    for i in 0..items.len()
        invariant
            pieces == diff::rows(items@).map_values(
                |r: (Seq<char>, Seq<char>, Seq<char>)| row_json(r),
            ),
            s@ == text::join(pieces.take(i as int), ","@),
    {
        proof {
            assert(pieces.take(i + 1).drop_last() =~= pieces.take(i as int));
            assert(pieces[i as int] == row_json(diff::row_view(items@[i as int])));
            if i == 0 {
                assert(pieces.take(0) =~= Seq::<Seq<char>>::empty());
            }
        }
        if i > 0 {
            text::append(&mut s, ",");
        }
        let mut o = text::owned("{\"name\":");
        text::append(&mut o, string(items[i].0.as_str()).as_str());
        text::append(&mut o, ",\"from\":");
        text::append(&mut o, string(items[i].1.as_str()).as_str());
        text::append(&mut o, ",\"to\":");
        text::append(&mut o, string(items[i].2.as_str()).as_str());
        text::append(&mut o, "}");
        text::append(&mut s, o.as_str());
        proof {
            if i == 0 {
                assert(s@ =~= pieces.take(1)[0]);
            }
        }
    }
    proof {
        assert(pieces.take(items@.len() as int) =~= pieces);
    }
    s
}

/// The scan as one JSON object and a newline. No `Term` here: JSON goes to a
/// program, and a program should not have to strip escape codes.
pub fn json(tree: &Tree, findings: &[Finding], corpus: &Corpus) -> (s: String)
    ensures
        s@ == scan_json(
            tree,
            rules::views(findings@),
            rules::all_rules().filter(|r: Rule| !rules::rule_applies(r, tree, *corpus)),
        ),
{
    let silent = rules::not_applicable(tree, corpus);
    let mut s = text::owned("{\"source\":");
    let src = term::sanitize(tree.source.as_str());
    text::append(&mut s, string(src.as_str()).as_str());
    text::append(&mut s, ",\"ecosystem\":");
    text::append(&mut s, string(tree.ecosystem.as_str()).as_str());
    text::append(&mut s, ",\"packages\":");
    text::append(&mut s, text::decimal_of(tree.third_party() as u64).as_str());
    text::append(&mut s, ",\"direct\":");
    text::append(&mut s, text::decimal_of(tree.direct() as u64).as_str());
    text::append(&mut s, ",\"transitive\":");
    text::append(&mut s, text::decimal_of(tree.transitive() as u64).as_str());
    text::append(&mut s, ",\"workspace\":");
    text::append(&mut s, text::decimal_of(tree.workspace_members() as u64).as_str());
    text::append(&mut s, ",\"integrity\":");
    text::append(&mut s, text::decimal_of(tree.with_integrity() as u64).as_str());
    text::append(&mut s, ",\"risk\":");
    text::append(&mut s, text::decimal_of(risk(findings) as u64).as_str());
    text::append(&mut s, ",\"findings\":[");
    text::append(&mut s, findings_array(findings).as_str());
    text::append(&mut s, "],\"not_applicable\":[");
    text::append(&mut s, rule_ids_array(&silent).as_str());
    text::append(&mut s, "]}\n");
    s
}

/// The diff as one JSON object and a newline.
pub fn diff_json(d: &Diff) -> (s: String)
    ensures
        s@ == diff_json_text(*d),
{
    let mut s = text::owned("{\"old\":");
    text::append(&mut s, string(d.old.source.as_str()).as_str());
    text::append(&mut s, ",\"new\":");
    text::append(&mut s, string(d.new.source.as_str()).as_str());
    text::append(&mut s, ",\"added\":[");
    text::append(&mut s, strings_array(&d.added).as_str());
    text::append(&mut s, "],\"removed\":[");
    text::append(&mut s, strings_array(&d.removed).as_str());
    text::append(&mut s, "],\"changed\":[");
    text::append(&mut s, rows_array(&d.changed).as_str());
    text::append(&mut s, "],\"introduced\":[");
    text::append(&mut s, findings_array(d.introduced.as_slice()).as_str());
    text::append(&mut s, "],\"resolved\":[");
    text::append(&mut s, findings_array(d.resolved.as_slice()).as_str());
    text::append(&mut s, "]}\n");
    s
}

/// `s` padded with spaces to `to` columns.
pub open spec fn pad_text(s: Seq<char>, to: int) -> Seq<char> {
    s + term::spaces(to - s.len())
}

/// The worst severity in `s`, starting from Low.
pub open spec fn max_severity(s: Seq<FindingView>) -> Severity
    decreases s.len(),
{
    if s.len() == 0 {
        Severity::Low
    } else {
        let w = max_severity(s.drop_last());
        if rules::severity_level(s.last().severity) > rules::severity_level(w) {
            s.last().severity
        } else {
            w
        }
    }
}

/// The findings of `s` that a rule raised.
pub open spec fn hits_of(s: Seq<FindingView>, rule: Rule) -> Seq<FindingView> {
    s.filter(|f: FindingView| f.rule == rule)
}

/// Whether a finding gets a line of its own: critical ones always do.
pub open spec fn shown(f: FindingView, verbose: bool) -> bool {
    verbose || f.rule == Rule::Slopsquat
}

/// The rules that fired, in report order.
pub open spec fn fired(s: Seq<FindingView>) -> Seq<Rule> {
    rules::all_rules().filter(|r: Rule| exists|i: int| 0 <= i < s.len() && (#[trigger] s[i]).rule == r)
}

/// The name a scan is headed with: the file name, or the path when it has
/// none, made safe to print.
pub open spec fn display_name(source: Seq<char>) -> Seq<char> {
    term::sanitized(
        match lock::file_name(source) {
            Some(n) => n,
            None => source,
        },
    )
}

pub open spec fn header_text(tree: &Tree) -> Seq<char> {
    let p = tree.packages@;
    let ws = (p.len() - lock::count_third_party(p)) as nat;
    "\n  "@ + pad_text(display_name(tree.source@), NAME_MIN as int) + " "@ + grouped(
        text::decimal(lock::count_third_party(p)),
    ) + " packages   ("@ + grouped(text::decimal(tree.roots@.len())) + " direct · "@ + grouped(
        text::decimal(transitive_count(tree)),
    ) + " transitive"@ + (if ws == 0 {
        seq![]
    } else {
        " · "@ + grouped(text::decimal(ws)) + " workspace"@
    }) + ")\n\n"@
}

pub open spec fn hit_line(f: FindingView, name_w: int) -> Seq<char> {
    "     "@ + pad_text(label_of(f), name_w) + " "@ + f.detail + "\n"@
}

/// One rule's block: its summary line, its findings when they are shown,
/// and a blank line.
pub open spec fn block_text(
    color: bool,
    s: Seq<FindingView>,
    rule: Rule,
    head_w: int,
    name_w: int,
    verbose: bool,
    third_party: nat,
) -> Seq<char> {
    let hits = hits_of(s, rule);
    let style = style_for(max_severity(hits));
    let line = "  "@ + term::painted(color, style, "⚠"@) + "  "@ + term::painted(
        color,
        style,
        pad_text(rules::rule_heading(rule), head_w),
    ) + " "@ + pad_text(text::decimal(hits.len()), 5) + " "@ + note_text(
        rule,
        hits.len(),
        third_party,
    );
    text::trim_end(line) + "\n"@ + (if verbose || rule == Rule::Slopsquat {
        text::concat(hits.map_values(|f: FindingView| hit_line(f, name_w)))
    } else {
        seq![]
    }) + "\n"@
}

pub open spec fn silent_line(color: bool, rule: Rule, head_w: int) -> Seq<char> {
    "  "@ + term::painted(color, Style::Dim, "·"@) + "  "@ + term::painted(
        color,
        Style::Dim,
        pad_text(rules::rule_heading(rule), head_w),
    ) + " "@ + term::painted(color, Style::Dim, "— no signal in this format"@) + "\n"@
}

/// The scan for a person: a header, a block per rule that fired, the rules
/// this format cannot answer, and the score.
pub open spec fn human_text(
    color: bool,
    tree: &Tree,
    s: Seq<FindingView>,
    silent: Seq<Rule>,
    elapsed_ms: nat,
    verbose: bool,
    quiet: bool,
) -> Seq<char> {
    let rs = fired(s);
    let name_w = term::column_width(
        s.filter(|f: FindingView| shown(f, verbose)).map_values(|f: FindingView| label_of(f)),
        NAME_MIN as int,
    );
    let head_w = term::column_width(
        (rs + silent).map_values(|r: Rule| rules::rule_heading(r)),
        HEAD_MIN as int,
    );
    let tp = lock::count_third_party(tree.packages@);
    (if quiet {
        seq![]
    } else {
        header_text(tree)
    }) + (if s.len() == 0 && !quiet {
        "  no findings\n"@
    } else {
        seq![]
    }) + text::concat(
        rs.map_values(|r: Rule| block_text(color, s, r, head_w, name_w, verbose, tp)),
    ) + (if !quiet && silent.len() > 0 {
        text::concat(silent.map_values(|r: Rule| silent_line(color, r, head_w))) + "\n"@
    } else {
        seq![]
    }) + (if quiet {
        seq![]
    } else {
        "  risk "@ + text::decimal(risk_of(s) as nat) + "/100    "@ + text::decimal(elapsed_ms)
            + "ms    third-party deps used to compute this: 0\n\n"@
    })
}

fn header(tree: &Tree) -> (out: String)
    ensures
        out@ == header_text(tree),
{
    let path = text::chars_of(tree.source.as_str());
    let name = match lock::file_name_of(&path) {
        Some(n) => text::string_of(&n),
        None => tree.source.clone(),
    };
    let file = term::sanitize(name.as_str());
    let mut out = text::owned("\n  ");
    text::append(&mut out, term::pad(file.as_str(), NAME_MIN).as_str());
    text::append(&mut out, " ");
    text::append(&mut out, thousands(tree.third_party() as u64).as_str());
    text::append(&mut out, " packages   (");
    text::append(&mut out, thousands(tree.direct() as u64).as_str());
    text::append(&mut out, " direct · ");
    text::append(&mut out, thousands(tree.transitive() as u64).as_str());
    text::append(&mut out, " transitive");
    let ws = tree.workspace_members();
    if ws != 0 {
        text::append(&mut out, " · ");
        text::append(&mut out, thousands(ws as u64).as_str());
        text::append(&mut out, " workspace");
    }
    text::append(&mut out, ")\n\n");
    out
}

/// The findings of `fs` that `rule` raised, in order.
fn hits_for(fs: &[Finding], rule: Rule) -> (out: Vec<usize>)
    ensures
        out@.len() == hits_of(rules::views(fs@), rule).len(),
        forall|i: int|
            0 <= i < out@.len() ==> (#[trigger] out@[i]) < fs@.len() && fs@[out@[i] as int]@
                == hits_of(rules::views(fs@), rule)[i],
{
    let ghost v = rules::views(fs@);
    let mut out: Vec<usize> = Vec::new();
    for i in 0..fs.len()
        invariant
            v == rules::views(fs@),
            out@.len() == hits_of(v.take(i as int), rule).len(),
            forall|x: int|
                0 <= x < out@.len() ==> (#[trigger] out@[x]) < fs@.len() && fs@[out@[x] as int]@
                    == hits_of(v.take(i as int), rule)[x],
    {
        proof {
            reveal(Seq::filter);
            assert(v.take(i + 1).drop_last() =~= v.take(i as int));
            assert(v.take(i + 1).last() == fs@[i as int]@);
        }
        if fs[i].rule == rule {
            out.push(i);
        }
    }
    proof {
        assert(v.take(v.len() as int) =~= v);
    }
    out
}

fn block(
    t: Term,
    fs: &[Finding],
    labels: &Vec<String>,
    rule: Rule,
    head_w: usize,
    name_w: usize,
    verbose: bool,
    tree: &Tree,
) -> (out: String)
    requires
        labels@.len() == fs@.len(),
        forall|i: int| 0 <= i < labels@.len() ==> (#[trigger] labels@[i])@ == label_of(fs@[i]@),
    ensures
        out@ == block_text(
            t.colored(),
            rules::views(fs@),
            rule,
            head_w as int,
            name_w as int,
            verbose,
            lock::count_third_party(tree.packages@),
        ),
{
    let ghost hits = hits_of(rules::views(fs@), rule);
    let idx = hits_for(fs, rule);
    let mut worst = Severity::Low;
    for i in 0..idx.len()
        invariant
            idx@.len() == hits.len(),
            forall|x: int|
                0 <= x < idx@.len() ==> (#[trigger] idx@[x]) < fs@.len() && fs@[idx@[x] as int]@
                    == hits[x],
            worst == max_severity(hits.take(i as int)),
    {
        proof {
            assert(hits.take(i + 1).drop_last() =~= hits.take(i as int));
            assert(hits.take(i + 1).last() == hits[i as int]);
        }
        let sev = fs[idx[i]].severity;
        if sev.level() > worst.level() {
            worst = sev;
        }
    }
    proof {
        assert(hits.take(hits.len() as int) =~= hits);
    }
    let style = style_of(worst);
    let count = idx.len();
    let mut line = text::owned("  ");
    text::append(&mut line, t.paint(style, "⚠").as_str());
    text::append(&mut line, "  ");
    text::append(&mut line, t.paint(style, term::pad(rule.heading(), head_w).as_str()).as_str());
    text::append(&mut line, " ");
    text::append(&mut line, term::pad(text::decimal_of(count as u64).as_str(), 5).as_str());
    text::append(&mut line, " ");
    text::append(&mut line, note(rule, count, tree).as_str());
    let mut out = text::trimmed_end(line.as_str());
    text::append(&mut out, "\n");
    if verbose || rule == Rule::Slopsquat {
        let ghost lines = hits.map_values(|f: FindingView| hit_line(f, name_w as int));
        let ghost start = out@;
        for i in 0..idx.len()
            invariant
                idx@.len() == hits.len(),
                forall|x: int|
                    0 <= x < idx@.len() ==> (#[trigger] idx@[x]) < fs@.len() && fs@[idx@[x] as int]@
                        == hits[x],
                labels@.len() == fs@.len(),
                forall|x: int| 0 <= x < labels@.len() ==> (#[trigger] labels@[x])@ == label_of(fs@[x]@),
                lines == hits.map_values(|f: FindingView| hit_line(f, name_w as int)),
                out@ == start + text::concat(lines.take(i as int)),
        {
            let k = idx[i];
            text::append(&mut out, "     ");
            text::append(&mut out, term::pad(labels[k].as_str(), name_w).as_str());
            text::append(&mut out, " ");
            text::append(&mut out, fs[k].detail.as_str());
            text::append(&mut out, "\n");
            proof {
                assert(lines.take(i + 1).drop_last() =~= lines.take(i as int));
                assert(lines[i as int] == hit_line(hits[i as int], name_w as int));
            }
        }
        proof {
            assert(lines.take(lines.len() as int) =~= lines);
        }
    }
    text::append(&mut out, "\n");
    out
}

/// The rules that fired, in report order.
fn fired_rules(fs: &[Finding]) -> (out: Vec<Rule>)
    ensures
        out@ == fired(rules::views(fs@)),
{
    let ghost v = rules::views(fs@);
    let all = Rule::ALL;
    let ghost rs = rules::all_rules();
    proof {
        assert(all@ =~= rs);
    }
    let mut out: Vec<Rule> = Vec::new();
    for k in 0..all.len()
        invariant
            v == rules::views(fs@),
            all@ == rs,
            rs.len() == 5,
            out@ == rs.take(k as int).filter(
                |r: Rule| exists|i: int| 0 <= i < v.len() && (#[trigger] v[i]).rule == r,
            ),
    {
        let r = all[k];
        let mut present = false;
        for i in 0..fs.len()
            invariant
                v == rules::views(fs@),
                present == exists|x: int| 0 <= x < i && (#[trigger] v[x]).rule == r,
        {
            proof {
                assert(v[i as int] == fs@[i as int]@);
            }
            if fs[i].rule == r {
                present = true;
            }
        }
        proof {
            reveal(Seq::filter);
            assert(rs.take(k + 1).drop_last() =~= rs.take(k as int));
        }
        if present {
            out.push(r);
        }
    }
    proof {
        assert(rs.take(5) =~= rs);
    }
    out
}

/// A label for every finding, and the labels of the ones that get a line.
fn labels_of(findings: &[Finding], verbose: bool) -> (r: (Vec<String>, Vec<String>))
    ensures
        r.0@.len() == findings@.len(),
        forall|x: int| 0 <= x < r.0@.len() ==> (#[trigger] r.0@[x])@ == label_of(findings@[x]@),
        term::views(r.1@) == rules::views(findings@).filter(|f: FindingView| shown(f, verbose)).map_values(
            |f: FindingView| label_of(f),
        ),
{
    let ghost s = rules::views(findings@);
    let mut labels: Vec<String> = Vec::new();
    let mut shown_labels: Vec<String> = Vec::new();
    for i in 0..findings.len()
        invariant
            s == rules::views(findings@),
            labels@.len() == i,
            forall|x: int| 0 <= x < i ==> (#[trigger] labels@[x])@ == label_of(findings@[x]@),
            term::views(shown_labels@) == s.take(i as int).filter(|f: FindingView| shown(f, verbose)).map_values(
                |f: FindingView| label_of(f),
            ),
    {
        let l = label(&findings[i]);
        proof {
            reveal(Seq::filter);
            assert(s.take(i + 1).drop_last() =~= s.take(i as int));
            assert(s.take(i + 1).last() == findings@[i as int]@);
        }
        if verbose || findings[i].rule == Rule::Slopsquat {
            let ghost old_shown = shown_labels@;
            shown_labels.push(l.clone());
            proof {
                assert(term::views(shown_labels@) =~= term::views(old_shown).push(l@));
                assert(s.take(i + 1).filter(|f: FindingView| shown(f, verbose)) =~= s.take(i as int).filter(
                    |f: FindingView| shown(f, verbose),
                ).push(findings@[i as int]@));
            }
        }
        labels.push(l);
    }
    proof {
        assert(s.take(s.len() as int) =~= s);
    }
    (labels, shown_labels)
}

/// The headings of the rules that fired and then of the silent ones.
fn headings(fired_list: &Vec<Rule>, silent: &Vec<Rule>) -> (heads: Vec<String>)
    requires
        fired_list@.len() <= 5,
        silent@.len() <= 5,
    ensures
        term::views(heads@) == (fired_list@ + silent@).map_values(|r: Rule| rules::rule_heading(r)),
{
    let mut heads: Vec<String> = Vec::new();
    let ghost both = fired_list@ + silent@;
    for i in 0..fired_list.len() + silent.len()
        invariant
            both == fired_list@ + silent@,
            term::views(heads@) == both.take(i as int).map_values(|r: Rule| rules::rule_heading(r)),
    {
        let r = if i < fired_list.len() {
            fired_list[i]
        } else {
            silent[i - fired_list.len()]
        };
        proof {
            assert(r == both[i as int]);
        }
        let h = text::owned(r.heading());
        let ghost old_heads = heads@;
        heads.push(h);
        proof {
            assert(term::views(heads@) =~= term::views(old_heads).push(h@));
            assert(both.take(i + 1) =~= both.take(i as int).push(r));
        }
    }
    proof {
        assert(both.take(both.len() as int) =~= both);
    }
    heads
}

fn blocks(
    t: Term,
    findings: &[Finding],
    labels: &Vec<String>,
    fired_list: &Vec<Rule>,
    head_w: usize,
    name_w: usize,
    verbose: bool,
    tree: &Tree,
) -> (out: String)
    requires
        labels@.len() == findings@.len(),
        forall|x: int| 0 <= x < labels@.len() ==> (#[trigger] labels@[x])@ == label_of(findings@[x]@),
    ensures
        out@ == text::concat(
            fired_list@.map_values(
                |r: Rule|
                    block_text(
                        t.colored(),
                        rules::views(findings@),
                        r,
                        head_w as int,
                        name_w as int,
                        verbose,
                        lock::count_third_party(tree.packages@),
                    ),
            ),
        ),
{
    let ghost s = rules::views(findings@);
    let ghost tp = lock::count_third_party(tree.packages@);
    let ghost all = fired_list@.map_values(
        |r: Rule| block_text(t.colored(), s, r, head_w as int, name_w as int, verbose, tp),
    );
    let mut out = String::new();
    for k in 0..fired_list.len()
        invariant
            s == rules::views(findings@),
            labels@.len() == findings@.len(),
            forall|x: int| 0 <= x < labels@.len() ==> (#[trigger] labels@[x])@ == label_of(findings@[x]@),
            tp == lock::count_third_party(tree.packages@),
            all == fired_list@.map_values(
                |r: Rule| block_text(t.colored(), s, r, head_w as int, name_w as int, verbose, tp),
            ),
            out@ == text::concat(all.take(k as int)),
    {
        let b = block(t, findings, labels, fired_list[k], head_w, name_w, verbose, tree);
        text::append(&mut out, b.as_str());
        proof {
            assert(all.take(k + 1).drop_last() =~= all.take(k as int));
        }
    }
    proof {
        assert(all.take(all.len() as int) =~= all);
    }
    out
}

fn silent_lines(t: Term, silent: &Vec<Rule>, head_w: usize) -> (out: String)
    ensures
        out@ == text::concat(silent@.map_values(|r: Rule| silent_line(t.colored(), r, head_w as int))),
{
    let ghost lines = silent@.map_values(|r: Rule| silent_line(t.colored(), r, head_w as int));
    let mut out = String::new();
    for k in 0..silent.len()
        invariant
            lines == silent@.map_values(|r: Rule| silent_line(t.colored(), r, head_w as int)),
            out@ == text::concat(lines.take(k as int)),
    {
        let r = silent[k];
        text::append(&mut out, "  ");
        text::append(&mut out, t.paint(Style::Dim, "·").as_str());
        text::append(&mut out, "  ");
        text::append(&mut out, t.paint(Style::Dim, term::pad(r.heading(), head_w).as_str()).as_str());
        text::append(&mut out, " ");
        text::append(&mut out, t.paint(Style::Dim, "— no signal in this format").as_str());
        text::append(&mut out, "\n");
        proof {
            assert(lines.take(k + 1).drop_last() =~= lines.take(k as int));
        }
    }
    proof {
        assert(lines.take(lines.len() as int) =~= lines);
    }
    out
}

/// The scan for a person.
pub fn human(
    t: Term,
    tree: &Tree,
    findings: &[Finding],
    elapsed_ms: u64,
    verbose: bool,
    quiet: bool,
    corpus: &Corpus,
) -> (out: String)
    ensures
        out@ == human_text(
            t.colored(),
            tree,
            rules::views(findings@),
            rules::all_rules().filter(|r: Rule| !rules::rule_applies(r, tree, *corpus)),
            elapsed_ms as nat,
            verbose,
            quiet,
        ),
{
    let head = if quiet {
        String::new()
    } else {
        header(tree)
    };
    let none = if findings.len() == 0 && !quiet {
        text::owned("  no findings\n")
    } else {
        String::new()
    };
    let (labels, shown_labels) = labels_of(findings, verbose);
    let name_w = term::column(shown_labels.as_slice(), NAME_MIN);
    let fired_list = fired_rules(findings);
    let silent = rules::not_applicable(tree, corpus);
    proof {
        broadcast use vstd::seq_lib::group_filter_ensures;
        assert(fired_list@.len() <= 5);
        assert(silent@.len() <= 5);
    }
    let heads = headings(&fired_list, &silent);
    let head_w = term::column(heads.as_slice(), HEAD_MIN);
    let body = blocks(t, findings, &labels, &fired_list, head_w, name_w, verbose, tree);
    let tail = if !quiet && silent.len() > 0 {
        let mut x = silent_lines(t, &silent, head_w);
        text::append(&mut x, "\n");
        x
    } else {
        String::new()
    };
    let foot = if !quiet {
        let mut x = text::owned("  risk ");
        text::append(&mut x, text::decimal_of(risk(findings) as u64).as_str());
        text::append(&mut x, "/100    ");
        text::append(&mut x, text::decimal_of(elapsed_ms).as_str());
        text::append(&mut x, "ms    third-party deps used to compute this: 0\n\n");
        x
    } else {
        String::new()
    };
    let mut out = head;
    text::append(&mut out, none.as_str());
    text::append(&mut out, body.as_str());
    text::append(&mut out, tail.as_str());
    text::append(&mut out, foot.as_str());
    out
}

pub open spec fn item_line(x: Seq<char>) -> Seq<char> {
    "     "@ + term::sanitized(x) + "\n"@
}

/// A block listing identities, when there are any.
pub open spec fn list_block(color: bool, heading: Seq<char>, items: Seq<Seq<char>>) -> Seq<char> {
    if items.len() == 0 {
        seq![]
    } else {
        "  "@ + term::painted(color, Style::Dim, pad_text(heading, 10)) + "  "@ + grouped(
            text::decimal(items.len()),
        ) + "\n"@ + text::concat(items.map_values(|x: Seq<char>| item_line(x))) + "\n"@
    }
}

pub open spec fn change_line(r: (Seq<char>, Seq<char>, Seq<char>)) -> Seq<char> {
    "     "@ + pad_text(term::sanitized(r.0), NAME_MIN as int) + " "@ + term::sanitized(r.1)
        + " -> "@ + term::sanitized(r.2) + "\n"@
}

pub open spec fn changed_block(color: bool, rs: Seq<(Seq<char>, Seq<char>, Seq<char>)>) -> Seq<char> {
    if rs.len() == 0 {
        seq![]
    } else {
        "  "@ + term::painted(color, Style::Yellow, pad_text("changed"@, 10)) + "  "@ + grouped(
            text::decimal(rs.len()),
        ) + "\n"@ + text::concat(rs.map_values(|r: (Seq<char>, Seq<char>, Seq<char>)| change_line(r)))
            + "\n"@
    }
}

pub open spec fn finding_line(color: bool, f: FindingView) -> Seq<char> {
    "     "@ + pad_text(label_of(f), NAME_MIN as int) + " "@ + term::painted(
        color,
        style_for(f.severity),
        term::sanitized(f.detail),
    ) + "\n"@
}

pub open spec fn finding_block(color: bool, heading: Seq<char>, style: Style, fs: Seq<FindingView>) -> Seq<char> {
    if fs.len() == 0 {
        seq![]
    } else {
        "  "@ + term::painted(color, style, pad_text(heading, 10)) + "  "@ + grouped(
            text::decimal(fs.len()),
        ) + " finding"@ + (if fs.len() == 1 {
            seq![]
        } else {
            "s"@
        }) + "\n"@ + text::concat(fs.map_values(|f: FindingView| finding_line(color, f))) + "\n"@
    }
}

/// The diff for a person: what moved, then what that means.
pub open spec fn diff_human_text(color: bool, d: Diff, quiet: bool) -> Seq<char> {
    let head = if quiet {
        seq![]
    } else {
        "\n  "@ + term::sanitized(d.old.source@) + " -> "@ + term::sanitized(d.new.source@)
            + "\n\n"@
    };
    let empty = d.added@.len() == 0 && d.removed@.len() == 0 && d.changed@.len() == 0
        && d.introduced@.len() == 0 && d.resolved@.len() == 0;
    if empty {
        head + (if quiet {
            seq![]
        } else {
            "  no change to the dependency tree\n"@
        })
    } else {
        head + list_block(color, "added"@, text::strings(d.added@)) + list_block(
            color,
            "removed"@,
            text::strings(d.removed@),
        ) + changed_block(color, diff::rows(d.changed@)) + finding_block(
            color,
            "introduced"@,
            Style::Red,
            rules::views(d.introduced@),
        ) + finding_block(color, "resolved"@, Style::Dim, rules::views(d.resolved@)) + (if d.introduced@.len()
            == 0 && !quiet {
            "  this change introduced no findings\n"@
        } else {
            seq![]
        })
    }
}

fn list_lines(t: Term, heading: &str, items: &Vec<String>) -> (out: String)
    ensures
        out@ == list_block(t.colored(), heading@, text::strings(items@)),
{
    if items.len() == 0 {
        return String::new();
    }
    let mut out = text::owned("  ");
    text::append(&mut out, t.paint(Style::Dim, term::pad(heading, 10).as_str()).as_str());
    text::append(&mut out, "  ");
    text::append(&mut out, thousands(items.len() as u64).as_str());
    text::append(&mut out, "\n");
    let ghost lines = text::strings(items@).map_values(|x: Seq<char>| item_line(x));
    let ghost start = out@;
    for i in 0..items.len()
        invariant
            lines == text::strings(items@).map_values(|x: Seq<char>| item_line(x)),
            out@ == start + text::concat(lines.take(i as int)),
    {
        text::append(&mut out, "     ");
        text::append(&mut out, term::sanitize(items[i].as_str()).as_str());
        text::append(&mut out, "\n");
        proof {
            assert(lines.take(i + 1).drop_last() =~= lines.take(i as int));
            assert(lines[i as int] == item_line(items@[i as int]@));
        }
    }
    proof {
        assert(lines.take(lines.len() as int) =~= lines);
    }
    text::append(&mut out, "\n");
    out
}

fn changed_lines(t: Term, rs: &Vec<(String, String, String)>) -> (out: String)
    ensures
        out@ == changed_block(t.colored(), diff::rows(rs@)),
{
    if rs.len() == 0 {
        return String::new();
    }
    let mut out = text::owned("  ");
    text::append(&mut out, t.paint(Style::Yellow, term::pad("changed", 10).as_str()).as_str());
    text::append(&mut out, "  ");
    text::append(&mut out, thousands(rs.len() as u64).as_str());
    text::append(&mut out, "\n");
    let ghost lines = diff::rows(rs@).map_values(|r: (Seq<char>, Seq<char>, Seq<char>)| change_line(r));
    let ghost start = out@;
    for i in 0..rs.len()
        invariant
            lines == diff::rows(rs@).map_values(|r: (Seq<char>, Seq<char>, Seq<char>)| change_line(r)),
            out@ == start + text::concat(lines.take(i as int)),
    {
        text::append(&mut out, "     ");
        text::append(&mut out, term::pad(term::sanitize(rs[i].0.as_str()).as_str(), NAME_MIN).as_str());
        text::append(&mut out, " ");
        text::append(&mut out, term::sanitize(rs[i].1.as_str()).as_str());
        text::append(&mut out, " -> ");
        text::append(&mut out, term::sanitize(rs[i].2.as_str()).as_str());
        text::append(&mut out, "\n");
        proof {
            assert(lines.take(i + 1).drop_last() =~= lines.take(i as int));
            assert(lines[i as int] == change_line(diff::row_view(rs@[i as int])));
        }
    }
    proof {
        assert(lines.take(lines.len() as int) =~= lines);
    }
    text::append(&mut out, "\n");
    out
}

fn finding_lines(t: Term, heading: &str, style: Style, fs: &Vec<Finding>) -> (out: String)
    ensures
        out@ == finding_block(t.colored(), heading@, style, rules::views(fs@)),
{
    if fs.len() == 0 {
        return String::new();
    }
    let mut out = text::owned("  ");
    text::append(&mut out, t.paint(style, term::pad(heading, 10).as_str()).as_str());
    text::append(&mut out, "  ");
    text::append(&mut out, thousands(fs.len() as u64).as_str());
    text::append(&mut out, " finding");
    if fs.len() != 1 {
        text::append(&mut out, "s");
    }
    text::append(&mut out, "\n");
    let ghost lines = rules::views(fs@).map_values(|f: FindingView| finding_line(t.colored(), f));
    let ghost start = out@;
    for i in 0..fs.len()
        invariant
            lines == rules::views(fs@).map_values(|f: FindingView| finding_line(t.colored(), f)),
            out@ == start + text::concat(lines.take(i as int)),
    {
        let f = &fs[i];
        text::append(&mut out, "     ");
        text::append(&mut out, term::pad(label(f).as_str(), NAME_MIN).as_str());
        text::append(&mut out, " ");
        let detail = term::sanitize(f.detail.as_str());
        text::append(&mut out, t.paint(style_of(f.severity), detail.as_str()).as_str());
        text::append(&mut out, "\n");
        proof {
            assert(lines.take(i + 1).drop_last() =~= lines.take(i as int));
            assert(lines[i as int] == finding_line(t.colored(), fs@[i as int]@));
        }
    }
    proof {
        assert(lines.take(lines.len() as int) =~= lines);
    }
    text::append(&mut out, "\n");
    out
}

/// The diff for a person. Three blocks and then the findings, because a
/// person reads "what moved" before "what that means".
pub fn diff_human(t: Term, d: &Diff, quiet: bool) -> (out: String)
    ensures
        out@ == diff_human_text(t.colored(), *d, quiet),
{
    let mut out = String::new();
    if !quiet {
        text::append(&mut out, "\n  ");
        text::append(&mut out, term::sanitize(d.old.source.as_str()).as_str());
        text::append(&mut out, " -> ");
        text::append(&mut out, term::sanitize(d.new.source.as_str()).as_str());
        text::append(&mut out, "\n\n");
    }
    if d.is_empty() {
        if !quiet {
            text::append(&mut out, "  no change to the dependency tree\n");
        }
        return out;
    }
    text::append(&mut out, list_lines(t, "added", &d.added).as_str());
    text::append(&mut out, list_lines(t, "removed", &d.removed).as_str());
    text::append(&mut out, changed_lines(t, &d.changed).as_str());
    text::append(&mut out, finding_lines(t, "introduced", Style::Red, &d.introduced).as_str());
    text::append(&mut out, finding_lines(t, "resolved", Style::Dim, &d.resolved).as_str());
    if d.introduced.len() == 0 && !quiet {
        text::append(&mut out, "  this change introduced no findings\n");
    }
    out
}

/// What a scan of a directory with no lockfile in it says.
pub open spec fn nothing_to_read_text(path: Seq<char>) -> Seq<char> {
    "\n  no lockfile in "@ + path + "\n"@ + "  looked for: "@ + lock::known_list() + "\n\n"@
}

/// Say what was looked for, so an empty directory is an answer and not a
/// silence.
pub fn nothing_to_read(path: &str) -> (s: String)
    ensures
        s@ == nothing_to_read_text(path@),
{
    let known = lock::KNOWN;
    let mut parts: Vec<Vec<char>> = Vec::new();
    for i in 0..known.len()
        invariant
            known@ == lock::KNOWN@,
            text::seqs(parts@) == lock::KNOWN@.take(i as int).map_values(|k: &str| k@),
    {
        let ghost old_parts = parts@;
        let c = text::chars_of(known[i]);
        parts.push(c);
        proof {
            assert(text::seqs(parts@) =~= text::seqs(old_parts).push(c@));
            assert(lock::KNOWN@.take(i + 1).map_values(|k: &str| k@) =~= lock::KNOWN@.take(
                i as int,
            ).map_values(|k: &str| k@).push(lock::KNOWN@[i as int]@));
        }
    }
    proof {
        assert(lock::KNOWN@.take(8) =~= lock::KNOWN@);
    }
    let mut s = text::owned("\n  no lockfile in ");
    text::append(&mut s, path);
    text::append(&mut s, "\n");
    text::append(&mut s, "  looked for: ");
    text::append(&mut s, text::join_of(&parts, ", ").as_str());
    text::append(&mut s, "\n\n");
    s
}

/// The object a JSON scan leads with when it could not see everything: the
/// paths it could not open and the lockfile names it has no reader for.
pub open spec fn blind_json_text(unreadable: Seq<Seq<char>>, unsupported: Seq<Seq<char>>) -> Seq<char> {
    "{\"unreadable\":["@ + strings_json(unreadable) + "],\"unsupported\":["@ + strings_json(
        unsupported,
    ) + "]}\n"@
}

pub fn blind_json(unreadable: &Vec<String>, unsupported: &Vec<String>) -> (s: String)
    ensures
        s@ == blind_json_text(text::strings(unreadable@), text::strings(unsupported@)),
{
    let mut s = text::owned("{\"unreadable\":[");
    text::append(&mut s, strings_array(unreadable).as_str());
    text::append(&mut s, "],\"unsupported\":[");
    text::append(&mut s, strings_array(unsupported).as_str());
    text::append(&mut s, "]}\n");
    s
}

} // verus!
