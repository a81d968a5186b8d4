//! yarn.lock, the v1 format.
//!
//! Not YAML, despite reading like it: a flat list of entries at column 0,
//! indented fields under each, and quoting that is optional except where a
//! value would break the line.
//!
//! The edges are specifiers, not versions. A `dependencies` line names a
//! range — `"@babel/highlight" "^7.0.0"` — and the entry it points at is the
//! one whose key list contains the literal specifier `@babel/highlight@^7.0.0`.
//! So resolution goes through the key lists, and one entry is reachable
//! through several keys.
//!
//! The root manifest is not in this file, so `roots` is derived: an entry
//! nothing else depends on can only have arrived through the manifest.
//! Install scripts, dev-ness and workspace membership are not recorded at
//! all, and `records_install_scripts` says so.
use crate::error::{Error, Result};
use crate::lock::{self, Ecosystem, Origin, Package, PackageView, Pin, PinView, Tree};
use crate::text;
use vstd::prelude::*;

verus! {

/// One entry as read so far: its specifiers as `(name, specifier)`, the
/// fields that matter, the specifiers it depends on, whether a dependency
/// block is open, and the line its header is on.
pub struct YEntry {
    pub specs: Seq<(Seq<char>, Seq<char>)>,
    pub version: Seq<char>,
    pub resolved: Seq<char>,
    pub integrity: bool,
    pub deps: Seq<Seq<char>>,
    pub in_deps: bool,
    pub line: int,
}

pub enum YError {
    Syntax(Seq<char>, int, int),
    Usage(Seq<char>),
}

/// `s` without one pair of surrounding double quotes.
pub open spec fn unquote_spec(s: Seq<char>) -> Seq<char> {
    if s.len() >= 2 && s[0] == '"' && s.last() == '"' {
        s.subrange(1, s.len() - 1)
    } else {
        s
    }
}

/// The first whitespace character at or after `from`, or -1.
pub open spec fn first_space(s: Seq<char>, from: int) -> int
    decreases s.len() - from,
{
    if from < 0 || from >= s.len() {
        -1
    } else if text::is_space(s[from]) {
        from
    } else {
        first_space(s, from + 1)
    }
}

/// `key value` or `key "value"`, split at the first whitespace character.
pub open spec fn pair_spec(t: Seq<char>, line: int) -> core::result::Result<
    (Seq<char>, Seq<char>),
    YError,
> {
    let i = first_space(t, 0);
    if i < 0 {
        Err(YError::Syntax("`"@ + t + "` is not a `key value` pair"@, line, 1))
    } else {
        Ok((unquote_spec(text::trim(t.take(i))), unquote_spec(text::trim(t.skip(i + 1)))))
    }
}

/// The last `@` in `s`, or -1.
pub open spec fn last_at(s: Seq<char>) -> int
    decreases s.len(),
{
    if s.len() == 0 {
        -1
    } else if s.last() == '@' {
        s.len() - 1
    } else {
        last_at(s.drop_last())
    }
}

/// The package name in `name@range`, split at the last `@` so a scoped name
/// keeps the one it starts with.
pub open spec fn name_of(spec: Seq<char>) -> Seq<char> {
    if last_at(spec) <= 0 {
        spec
    } else {
        spec.take(last_at(spec))
    }
}

/// The specifiers of the comma-separated parts of a header.
pub open spec fn specs_of(parts: Seq<Seq<char>>) -> Seq<(Seq<char>, Seq<char>)>
    decreases parts.len(),
{
    if parts.len() == 0 {
        seq![]
    } else {
        let rest = specs_of(parts.drop_last());
        let spec = unquote_spec(text::trim(parts.last()));
        if spec.len() == 0 {
            rest
        } else {
            rest.push((name_of(spec), spec))
        }
    }
}

pub open spec fn edge_block(b: Seq<char>) -> bool {
    b == "dependencies"@ || b == "optionalDependencies"@ || b == "peerDependencies"@
}

pub open spec fn has_space(s: Seq<char>) -> bool {
    exists|i: int| 0 <= i < s.len() && text::is_space(#[trigger] s[i])
}

/// Bytes of indentation in front of a field.
pub open spec fn depth(field: Seq<char>) -> nat {
    text::utf8_len(field.take(field.len() - text::trim_start(field).len()))
}

/// What one indented line does to the entry it is under.
pub open spec fn field_spec(e: YEntry, field: Seq<char>, n: int) -> core::result::Result<
    YEntry,
    YError,
> {
    let t = text::trim(field);
    if t.len() == 0 || t[0] == '#' {
        Ok(e)
    } else if t.last() == ':' && !has_space(t.drop_last()) {
        Ok(YEntry { in_deps: edge_block(t.drop_last()), ..e })
    } else if e.in_deps && depth(field) >= 4 {
        match pair_spec(t, n) {
            Err(err) => Err(err),
            Ok((name, range)) => Ok(YEntry { deps: e.deps.push(name + "@"@ + range), ..e }),
        }
    } else {
        match pair_spec(t, n) {
            Err(err) => Err(err),
            Ok((k, v)) => {
                let e2 = YEntry { in_deps: false, ..e };
                if k == "version"@ {
                    Ok(YEntry { version: v, ..e2 })
                } else if k == "resolved"@ {
                    Ok(YEntry { resolved: v, ..e2 })
                } else if k == "integrity"@ {
                    Ok(YEntry { integrity: true, ..e2 })
                } else {
                    Ok(e2)
                }
            },
        }
    }
}

/// An indented line, or one with nothing on it.
pub open spec fn is_field(raw: Seq<char>) -> bool {
    (raw.len() > 0 && (raw[0] == ' ' || raw[0] == '\t')) || text::trim(raw).len() == 0
}

/// Reading: the entries finished, and the one whose fields are being read.
pub struct YState {
    pub entries: Seq<YEntry>,
    pub cur: Option<YEntry>,
}

/// The entry in progress is done: it must have said what version it is.
pub open spec fn finish(st: YState) -> core::result::Result<YState, YError> {
    match st.cur {
        None => Ok(st),
        Some(e) => if e.version.len() == 0 {
            Err(YError::Syntax("entry has no `version` field"@, e.line, 1))
        } else {
            Ok(YState { entries: st.entries.push(e), cur: None })
        },
    }
}

/// A line at column 0, when no entry is open.
pub open spec fn top_line(st: YState, raw: Seq<char>, n: int) -> core::result::Result<
    YState,
    YError,
> {
    if text::trim(raw).len() == 0 || (text::trim_start(raw).len() > 0 && text::trim_start(raw)[0]
        == '#') {
        Ok(st)
    } else if raw.len() > 0 && (raw[0] == ' ' || raw[0] == '\t') {
        Err(YError::Syntax("indented line outside any entry"@, n, 1))
    } else if raw.len() == 0 || raw.last() != ':' {
        Err(YError::Syntax("entry header does not end in `:`"@, n, (raw.len() + 1) as int))
    } else {
        let specs = specs_of(text::split(raw.drop_last(), ','));
        if specs.len() == 0 {
            Err(YError::Syntax("entry header names no package"@, n, 1))
        } else {
            Ok(
                YState {
                    entries: st.entries,
                    cur: Some(
                        YEntry {
                            specs,
                            version: seq![],
                            resolved: seq![],
                            integrity: false,
                            deps: seq![],
                            in_deps: false,
                            line: n,
                        },
                    ),
                },
            )
        }
    }
}

/// What line `n` does to the reading.
pub open spec fn y_step(st: YState, raw: Seq<char>, n: int) -> core::result::Result<YState, YError> {
    match st.cur {
        Some(e) => if is_field(raw) {
            match field_spec(e, raw, n) {
                Err(err) => Err(err),
                Ok(e2) => Ok(YState { entries: st.entries, cur: Some(e2) }),
            }
        } else {
            match finish(st) {
                Err(err) => Err(err),
                Ok(st2) => top_line(st2, raw, n),
            }
        },
        None => top_line(st, raw, n),
    }
}

pub open spec fn y_run(lines: Seq<Seq<char>>) -> core::result::Result<YState, YError>
    decreases lines.len(),
{
    if lines.len() == 0 {
        Ok(YState { entries: seq![], cur: None })
    } else {
        match y_run(lines.drop_last()) {
            Err(e) => Err(e),
            Ok(st) => y_step(st, lines.last(), lines.len() as int),
        }
    }
}

/// Some line of the file opens a Berry `__metadata` block.
pub open spec fn is_berry(lines: Seq<Seq<char>>) -> bool {
    exists|i: int| 0 <= i < lines.len() && "__metadata:"@.is_prefix_of(text::trim_start(#[trigger] lines[i]))
}

/// The entries of the whole file, or what is wrong with it.
pub open spec fn y_read(path: Seq<char>, src: Seq<char>) -> core::result::Result<Seq<YEntry>, YError> {
    let lines = text::lines(src);
    if is_berry(lines) {
        Err(
            YError::Usage(
                path + ": this is a Yarn Berry (v2+) lockfile; stranger reads the v1 format"@,
            ),
        )
    } else {
        match y_run(lines) {
            Err(e) => Err(e),
            Ok(st) => match finish(st) {
                Err(e) => Err(e),
                Ok(st2) => Ok(st2.entries),
            },
        }
    }
}

/// The package an entry becomes.
pub open spec fn entry_package(e: YEntry) -> PackageView {
    let name = e.specs[0].0;
    PackageView {
        name,
        version: e.version,
        key: name + "@"@ + e.version,
        dev: false,
        optional: false,
        first_party: false,
        install_script: false,
        has_integrity: e.integrity,
        pinned: PinView::Exact,
        origin: if "https://registry.yarnpkg.com/"@.is_prefix_of(e.resolved)
            || "https://registry.npmjs.org/"@.is_prefix_of(e.resolved) {
            Origin::Registry
        } else {
            Origin::Elsewhere
        },
    }
}

/// The entry a dependency specifier resolves to among the first `n`: the
/// last one whose key list holds it.
pub open spec fn resolve_dep(entries: Seq<YEntry>, dep: Seq<char>, n: int) -> Option<int>
    decreases n,
{
    if n <= 0 {
        None
    } else if exists|k: int|
        0 <= k < entries[n - 1].specs.len() && (#[trigger] entries[n - 1].specs[k]).1 == dep {
        Some(n - 1)
    } else {
        resolve_dep(entries, dep, n - 1)
    }
}

/// Entry `f` depends on something that resolves to entry `t`.
pub open spec fn is_edge(entries: Seq<YEntry>, f: int, t: int) -> bool {
    0 <= f < entries.len() && exists|k: int|
        0 <= k < entries[f].deps.len() && resolve_dep(entries, #[trigger] entries[f].deps[k], entries.len() as int)
            == Some(t)
}

pub open spec fn pair_lt(a: (usize, usize), b: (usize, usize)) -> bool {
    a.0 < b.0 || (a.0 == b.0 && a.1 < b.1)
}

/// The indices below `n`, in order, that no edge points at.
pub open spec fn yarn_roots(entries: Seq<YEntry>, n: int) -> Seq<usize>
    decreases n,
{
    if n <= 0 {
        seq![]
    } else {
        let rest = yarn_roots(entries, n - 1);
        if exists|f: int| #[trigger] is_edge(entries, f, n - 1) {
            rest
        } else {
            rest.push((n - 1) as usize)
        }
    }
}

fn unquote(s: &[char]) -> (r: Vec<char>)
    ensures
        r@ == unquote_spec(s@),
{
    if s.len() >= 2 && s[0] == '"' && s[s.len() - 1] == '"' {
        text::slice(s, 1, s.len() - 1)
    } else {
        proof {
            assert(s@.subrange(0, s@.len() as int) =~= s@);
        }
        text::slice(s, 0, s.len())
    }
}

fn pair(t: &[char], line: u32) -> (r: Result<(Vec<char>, Vec<char>)>)
    ensures
        match pair_spec(t@, line as int) {
            Ok((k, v)) => r matches Ok((a, b)) && a@ == k && b@ == v,
            Err(YError::Syntax(w, l, c)) => r matches Err(Error::Syntax { what, line: el, col: ec })
                && what@ == w && el == l && ec == c,
            Err(YError::Usage(_)) => false,
        },
{
    let mut i: usize = 0;
    while i < t.len() && !text::space(t[i])
        invariant
            i <= t@.len(),
            first_space(t@, 0) == first_space(t@, i as int),
        decreases t@.len() - i,
    {
        i = i + 1;
    }
    if i >= t.len() {
        let mut what = text::owned("`");
        text::append(&mut what, text::string_of(t).as_str());
        text::append(&mut what, "` is not a `key value` pair");
        return Err(Error::syntax(what.as_str(), line, 1));
    }
    let key = text::trimmed(&text::slice(t, 0, i));
    let value = text::trimmed(&text::slice(t, i + 1, t.len()));
    proof {
        assert(t@.subrange(0, i as int) =~= t@.take(i as int));
        assert(t@.subrange(i + 1, t@.len() as int) =~= t@.skip(i + 1));
    }
    Ok((unquote(&key), unquote(&value)))
}

fn name_of_specifier(spec: &[char]) -> (r: Vec<char>)
    ensures
        r@ == name_of(spec@),
{
    let mut k = spec.len();
    proof {
        assert(spec@.take(k as int) =~= spec@);
    }
    while k > 0 && spec[k - 1] != '@'
        invariant
            k <= spec@.len(),
            last_at(spec@) == last_at(spec@.take(k as int)),
        decreases k,
    {
        proof {
            assert(spec@.take(k as int).drop_last() =~= spec@.take(k - 1));
        }
        k = k - 1;
    }
    proof {
        if k > 0 {
            assert(spec@.take(k as int).last() == '@');
        }
    }
    if k <= 1 {
        proof {
            assert(spec@.subrange(0, spec@.len() as int) =~= spec@);
        }
        text::slice(spec, 0, spec.len())
    } else {
        proof {
            assert(spec@.subrange(0, k - 1) =~= spec@.take(k - 1));
        }
        text::slice(spec, 0, k - 1)
    }
}

pub open spec fn spec_views(v: Seq<(Vec<char>, Vec<char>)>) -> Seq<(Seq<char>, Seq<char>)> {
    v.map_values(|x: (Vec<char>, Vec<char>)| (x.0@, x.1@))
}

fn header_specs(header: &[char]) -> (r: Vec<(Vec<char>, Vec<char>)>)
    ensures
        spec_views(r@) == specs_of(text::split(header@, ',')),
{
    let parts = text::split_at(header, ',');
    let ghost ps = text::seqs(parts@);
    let mut out: Vec<(Vec<char>, Vec<char>)> = Vec::new();
    for i in 0..parts.len()
        invariant
            ps == text::seqs(parts@),
            spec_views(out@) == specs_of(ps.take(i as int)),
    {
        proof {
            assert(ps.take(i + 1).drop_last() =~= ps.take(i as int));
            assert(ps.take(i + 1).last() == parts@[i as int]@);
        }
        let spec = unquote(&text::trimmed(&parts[i]));
        if spec.len() > 0 {
            let name = name_of_specifier(&spec);
            let ghost old_out = out@;
            let item = (name, spec);
            out.push(item);
            proof {
                assert(spec_views(out@) =~= spec_views(old_out).push((item.0@, item.1@)));
            }
        }
    }
    proof {
        assert(ps.take(ps.len() as int) =~= ps);
    }
    out
}

/// The exec side of `YEntry`.
struct Entry {
    specifiers: Vec<(Vec<char>, Vec<char>)>,
    version: Vec<char>,
    resolved: Vec<char>,
    integrity: bool,
    deps: Vec<Vec<char>>,
    in_deps: bool,
    line: u32,
}

spec fn entry_view(e: &Entry) -> YEntry {
    YEntry {
        specs: spec_views(e.specifiers@),
        version: e.version@,
        resolved: e.resolved@,
        integrity: e.integrity,
        deps: text::seqs(e.deps@),
        in_deps: e.in_deps,
        line: e.line as int,
    }
}

fn same_as(t: &[char], word: &str) -> (r: bool)
    ensures
        r == (t@ == word@),
{
    let w = text::chars_of(word);
    text::same_chars(t, &w)
}

fn any_space(s: &[char]) -> (r: bool)
    ensures
        r == has_space(s@),
{
    for i in 0..s.len()
        invariant
            forall|j: int| 0 <= j < i ==> !text::is_space(#[trigger] s@[j]),
    {
        if text::space(s[i]) {
            return true;
        }
    }
    false
}

/// How many whitespace characters `s` starts with.
fn leading(s: &[char]) -> (n: usize)
    ensures
        n == s@.len() - text::trim_start(s@).len(),
        n <= s@.len(),
{
    let mut i: usize = 0;
    proof {
        assert(s@.skip(0) =~= s@);
    }
    while i < s.len() && text::space(s[i])
        invariant
            i <= s@.len(),
            text::trim_start(s@) == text::trim_start(s@.skip(i as int)),
        decreases s@.len() - i,
    {
        proof {
            assert(s@.skip(i as int).drop_first() =~= s@.skip(i + 1));
        }
        i = i + 1;
    }
    proof {
        assert(text::trim_start(s@.skip(i as int)) == s@.skip(i as int));
    }
    i
}

/// One indented line applied to the entry it is under.
fn field(e: &mut Entry, raw: &[char], n: u32) -> (r: Result<()>)
    requires
        raw@.len() <= usize::MAX / 4,
    ensures
        match field_spec(entry_view(old(e)), raw@, n as int) {
            Ok(next) => r is Ok && entry_view(final(e)) == next,
            Err(YError::Syntax(w, l, c)) => r matches Err(Error::Syntax { what, line, col })
                && what@ == w && line == l && col == c,
            Err(YError::Usage(_)) => false,
        },
{
    let t = text::trimmed(raw);
    if t.len() == 0 || t[0] == '#' {
        return Ok(());
    }
    if t[t.len() - 1] == ':' {
        let block = text::slice(&t, 0, t.len() - 1);
        proof {
            assert(block@ =~= t@.drop_last());
        }
        if !any_space(&block) {
            e.in_deps = same_as(&block, "dependencies") || same_as(&block, "optionalDependencies")
                || same_as(&block, "peerDependencies");
            return Ok(());
        }
    }
    let lead = leading(raw);
    let indent = text::slice(raw, 0, lead);
    proof {
        assert(indent@ =~= raw@.take(raw@.len() - text::trim_start(raw@).len()));
    }
    let bytes = text::utf8_len_of(&indent);
    if e.in_deps && bytes >= 4 {
        let (name, range) = pair(&t, n)?;
        let ghost name_v = name@;
        let mut dep = name;
        dep.push('@');
        let ghost before = dep@;
        for k in 0..range.len()
            invariant
                dep@ == before + range@.take(k as int),
        {
            dep.push(range[k]);
            proof {
                assert(range@.take(k + 1) =~= range@.take(k as int).push(range@[k as int]));
            }
        }
        proof {
            assert(range@.take(range@.len() as int) =~= range@);
            reveal_strlit("@");
            assert(before =~= name_v + "@"@);
            assert(dep@ =~= name_v + "@"@ + range@);
        }
        let ghost old_deps = e.deps@;
        e.deps.push(dep);
        proof {
            assert(text::seqs(e.deps@) =~= text::seqs(old_deps).push(dep@));
        }
        return Ok(());
    }
    let (key, value) = pair(&t, n)?;
    e.in_deps = false;
    if same_as(&key, "version") {
        e.version = value;
    } else if same_as(&key, "resolved") {
        e.resolved = value;
    } else if same_as(&key, "integrity") {
        e.integrity = true;
    }
    Ok(())
}

spec fn entries_view(v: Seq<Entry>) -> Seq<YEntry> {
    v.map_values(|e: Entry| entry_view(&e))
}

spec fn state_view(entries: &Vec<Entry>, cur: &Option<Entry>) -> YState {
    YState {
        entries: entries_view(entries@),
        cur: match cur {
            Some(e) => Some(entry_view(e)),
            None => None,
        },
    }
}

/// Every entry names at least one package.
spec fn named(entries: &Vec<Entry>, cur: &Option<Entry>) -> bool {
    &&& forall|i: int| 0 <= i < entries@.len() ==> (#[trigger] entries@[i]).specifiers@.len() > 0
    &&& cur matches Some(e) ==> e.specifiers@.len() > 0
}

fn finish_entry(entries: &mut Vec<Entry>, cur: &mut Option<Entry>) -> (r: Result<()>)
    requires
        named(old(entries), old(cur)),
    ensures
        match finish(state_view(old(entries), old(cur))) {
            Ok(st) => r is Ok && state_view(final(entries), final(cur)) == st && named(final(entries), final(cur)),
            Err(YError::Syntax(w, l, c)) => r matches Err(Error::Syntax { what, line, col })
                && what@ == w && line == l && col == c,
            Err(YError::Usage(_)) => false,
        },
{
    let taken = cur.take();
    match taken {
        None => Ok(()),
        Some(e) => {
            if e.version.len() == 0 {
                return Err(Error::syntax("entry has no `version` field", e.line, 1));
            }
            let ghost old_e = entries@;
            let ghost ev = entry_view(&e);
            entries.push(e);
            proof {
                assert(entries_view(entries@) =~= entries_view(old_e).push(ev));
            }
            Ok(())
        },
    }
}

/// A line at column 0, with no entry open.
fn top(cur: &mut Option<Entry>, raw: &[char], n: u32, Ghost(entries): Ghost<Seq<YEntry>>) -> (r: Result<()>)
    requires
        *old(cur) is None,
        raw@.len() < u32::MAX,
    ensures
        match top_line(YState { entries, cur: None }, raw@, n as int) {
            Ok(st) => r is Ok && st.entries == entries && match *final(cur) {
                Some(e) => st.cur == Some(entry_view(&e)) && e.specifiers@.len() > 0,
                None => st.cur is None,
            },
            Err(YError::Syntax(w, l, c)) => r matches Err(Error::Syntax { what, line, col })
                && what@ == w && line == l && col == c,
            Err(YError::Usage(_)) => false,
        },
{
    let t = text::trimmed(raw);
    let lead = leading(raw);
    let rest = text::slice(raw, lead, raw.len());
    proof {
        assert(rest@ =~= raw@.skip(lead as int));
        assert(text::trim_start(raw@) =~= raw@.skip(lead as int)) by {
            lemma_trim_start_skip(raw@);
        }
    }
    if t.len() == 0 || (rest.len() > 0 && rest[0] == '#') {
        return Ok(());
    }
    if raw.len() > 0 && (raw[0] == ' ' || raw[0] == '\t') {
        return Err(Error::syntax("indented line outside any entry", n, 1));
    }
    if raw.len() == 0 || raw[raw.len() - 1] != ':' {
        return Err(Error::syntax("entry header does not end in `:`", n, (raw.len() as u32) + 1));
    }
    let header = text::slice(raw, 0, raw.len() - 1);
    proof {
        assert(header@ =~= raw@.drop_last());
    }
    let specs = header_specs(&header);
    if specs.len() == 0 {
        return Err(Error::syntax("entry header names no package", n, 1));
    }
    let e = Entry {
        specifiers: specs,
        version: Vec::new(),
        resolved: Vec::new(),
        integrity: false,
        deps: Vec::new(),
        in_deps: false,
        line: n,
    };
    proof {
        assert(e.version@ =~= Seq::<char>::empty());
        assert(e.resolved@ =~= Seq::<char>::empty());
        assert(text::seqs(e.deps@) =~= Seq::<Seq<char>>::empty());
    }
    *cur = Some(e);
    Ok(())
}

proof fn lemma_trim_start_skip(s: Seq<char>)
    ensures
        text::trim_start(s).len() <= s.len(),
        text::trim_start(s) == s.skip(s.len() - text::trim_start(s).len()),
    decreases s.len(),
{
    if s.len() > 0 && text::is_space(s[0]) {
        let d = s.drop_first();
        lemma_trim_start_skip(d);
        let m = d.len() - text::trim_start(d).len();
        assert(text::trim_start(s) == text::trim_start(d));
        assert(d.skip(m) =~= s.skip(m + 1));
    } else {
        assert(s.skip(0) =~= s);
    }
}

/// One line, number `n`, applied to the reading.
fn step(entries: &mut Vec<Entry>, cur: &mut Option<Entry>, raw: &[char], n: u32) -> (r: Result<()>)
    requires
        raw@.len() < u32::MAX,
        raw@.len() <= usize::MAX / 4,
        named(old(entries), old(cur)),
    ensures
        match y_step(state_view(old(entries), old(cur)), raw@, n as int) {
            Ok(st) => r is Ok && state_view(final(entries), final(cur)) == st && named(final(entries), final(cur)),
            Err(YError::Syntax(w, l, c)) => r matches Err(Error::Syntax { what, line, col })
                && what@ == w && line == l && col == c,
            Err(YError::Usage(_)) => false,
        },
{
    let indented = raw.len() > 0 && (raw[0] == ' ' || raw[0] == '\t');
    let blank = text::trimmed(raw).len() == 0;
    if cur.is_some() && (indented || blank) {
        let mut e = cur.take().unwrap();
        let ghost before = e.specifiers@;
        let res = field(&mut e, raw, n);
        proof {
            if res is Ok {
                assert(spec_views(e.specifiers@) == spec_views(before));
                assert(spec_views(e.specifiers@).len() == e.specifiers@.len());
                assert(spec_views(before).len() == before.len());
            }
        }
        *cur = Some(e);
        return res;
    }
    let res = finish_entry(entries, cur);
    match res {
        Err(err) => return Err(err),
        Ok(()) => {},
    }
    let ghost done = entries_view(entries@);
    top(cur, raw, n, Ghost(done))
}

fn berry(lines: &Vec<String>) -> (r: bool)
    ensures
        r == is_berry(lines@.map_values(|l: String| l@)),
{
    let ghost ls = lines@.map_values(|l: String| l@);
    let marker = text::chars_of("__metadata:");
    for i in 0..lines.len()
        invariant
            ls == lines@.map_values(|l: String| l@),
            marker@ == "__metadata:"@,
            forall|j: int| 0 <= j < i ==> !"__metadata:"@.is_prefix_of(text::trim_start(#[trigger] ls[j])),
    {
        let raw = text::chars_of(lines[i].as_str());
        let lead = leading(&raw);
        let rest = text::slice(&raw, lead, raw.len());
        proof {
            assert(ls[i as int] == raw@);
            assert(rest@ =~= raw@.skip(lead as int));
            lemma_trim_start_skip(raw@);
        }
        if text::starts_with(&rest, &marker) {
            return true;
        }
    }
    false
}

/// Reading stays failed once it has failed.
proof fn lemma_run_err(ls: Seq<Seq<char>>, k: int)
    requires
        0 <= k <= ls.len(),
        y_run(ls.take(k)) is Err,
    ensures
        y_run(ls) == y_run(ls.take(k)),
    decreases ls.len() - k,
{
    if k < ls.len() {
        assert(ls.take(k + 1).drop_last() =~= ls.take(k));
        lemma_run_err(ls, k + 1);
    } else {
        assert(ls.take(k) =~= ls);
    }
}

proof fn lemma_total_take(ls: Seq<Seq<char>>, i: int)
    requires
        0 <= i < ls.len(),
    ensures
        ls[i].len() <= text::total(ls),
    decreases ls.len() - i,
{
    if i + 1 < ls.len() {
        lemma_total_take(ls, i + 1);
        assert(ls.take(i + 2).drop_last() =~= ls.take(i + 1));
    }
    lemma_total_prefix(ls, i + 1);
    assert(ls.take(i + 1).drop_last() =~= ls.take(i));
    assert(ls.take(i + 1).last() == ls[i]);
}

proof fn lemma_total_prefix(ls: Seq<Seq<char>>, k: int)
    requires
        0 <= k <= ls.len(),
    ensures
        text::total(ls.take(k)) <= text::total(ls),
    decreases ls.len() - k,
{
    if k < ls.len() {
        lemma_total_prefix(ls, k + 1);
        assert(ls.take(k + 1).drop_last() =~= ls.take(k));
    } else {
        assert(ls.take(k) =~= ls);
    }
}

/// The entry the dependency resolves to, if any.
fn resolve(entries: &Vec<Entry>, dep: &[char]) -> (r: Option<usize>)
    ensures
        match resolve_dep(entries_view(entries@), dep@, entries@.len() as int) {
            Some(t) => r matches Some(x) && x == t,
            None => r is None,
        },
{
    let ghost ev = entries_view(entries@);
    let mut j = entries.len();
    while j > 0
        invariant
            j <= entries@.len(),
            ev == entries_view(entries@),
            resolve_dep(ev, dep@, entries@.len() as int) == resolve_dep(ev, dep@, j as int),
        decreases j,
    {
        let e = &entries[j - 1];
        proof {
            assert(ev[j - 1] == entry_view(e));
        }
        let mut found = false;
        for k in 0..e.specifiers.len()
            invariant
                ev[j - 1] == entry_view(e),
                found == exists|x: int| 0 <= x < k && (#[trigger] ev[j - 1].specs[x]).1 == dep@,
        {
            proof {
                assert(ev[j - 1].specs[k as int] == (e.specifiers@[k as int].0@, e.specifiers@[k as int].1@));
            }
            if text::same_chars(&e.specifiers[k].1, dep) {
                found = true;
            }
        }
        if found {
            return Some(j - 1);
        }
        j = j - 1;
    }
    None
}

/// `x` added to a strictly sorted list of edges.
fn insert_edge(list: &mut Vec<(usize, usize)>, x: (usize, usize))
    requires
        forall|i: int, j: int| 0 <= i < j < old(list)@.len() ==> pair_lt(#[trigger] old(list)@[i], #[trigger] old(list)@[j]),
    ensures
        forall|i: int, j: int| 0 <= i < j < final(list)@.len() ==> pair_lt(#[trigger] final(list)@[i], #[trigger] final(list)@[j]),
        forall|v: (usize, usize)| #[trigger] final(list)@.contains(v) <==> (old(list)@.contains(v) || v == x),
{
    let ghost before = list@;
    let mut p: usize = 0;
    while p < list.len() && pair_lt_exec(list[p], x)
        invariant
            p <= list@.len(),
            before == list@,
            forall|j: int| 0 <= j < p ==> pair_lt(#[trigger] before[j], x),
        decreases list@.len() - p,
    {
        p = p + 1;
    }
    if p < list.len() && list[p].0 == x.0 && list[p].1 == x.1 {
        proof {
            assert(before.contains(x));
        }
        return;
    }
    list.insert(p, x);
    proof {
        let after = list@;
        assert(after =~= before.insert(p as int, x));
        assert forall|i: int, j: int| 0 <= i < j < after.len() implies pair_lt(#[trigger] after[i], #[trigger] after[j]) by {
            if j < p {
            } else if j == p {
                assert(after[i] == before[i]);
            } else if i > p {
                assert(after[i] == before[i - 1] && after[j] == before[j - 1]);
            } else if i == p {
                assert(after[j] == before[j - 1]);
                if p < before.len() {
                    assert(!pair_lt(before[p as int], x) && before[p as int] != x);
                }
            } else {
                assert(after[i] == before[i] && after[j] == before[j - 1]);
            }
        }
        assert forall|v: (usize, usize)| #[trigger] after.contains(v) <==> (before.contains(v) || v == x) by {
            if after.contains(v) {
                let i = choose|i: int| 0 <= i < after.len() && after[i] == v;
                if i < p {
                    assert(before[i] == v);
                } else if i > p {
                    assert(before[i - 1] == v);
                }
            }
            if before.contains(v) {
                let i = choose|i: int| 0 <= i < before.len() && before[i] == v;
                if i < p {
                    assert(after[i] == v);
                } else {
                    assert(after[i + 1] == v);
                }
            }
            if v == x {
                assert(after[p as int] == v);
            }
        }
    }
}

fn pair_lt_exec(a: (usize, usize), b: (usize, usize)) -> (r: bool)
    ensures
        r == pair_lt(a, b),
{
    a.0 < b.0 || (a.0 == b.0 && a.1 < b.1)
}

/// The tree the finished entries make.
fn build(entries: &Vec<Entry>, path: &str) -> (tree: Tree)
    requires
        forall|i: int| 0 <= i < entries@.len() ==> (#[trigger] entries@[i]).specifiers@.len() > 0,
    ensures
        yarn_tree(entries_view(entries@), path@, tree),
{
    let ghost ev = entries_view(entries@);
    let mut packages: Vec<Package> = Vec::new();
    for i in 0..entries.len()
        invariant
            ev == entries_view(entries@),
            forall|x: int| 0 <= x < entries@.len() ==> (#[trigger] entries@[x]).specifiers@.len() > 0,
            lock::package_views(packages@) == ev.take(i as int).map_values(|e: YEntry| entry_package(e)),
    {
        let e = &entries[i];
        proof {
            assert(ev[i as int] == entry_view(e));
            assert(ev[i as int].specs[0] == (e.specifiers@[0].0@, e.specifiers@[0].1@));
        }
        let name = text::string_of(&e.specifiers[0].0);
        let version = text::string_of(&e.version);
        let mut key = name.clone();
        text::append(&mut key, "@");
        text::append(&mut key, version.as_str());
        let url = text::string_of(&e.resolved);
        let registry = text::starts_with(&e.resolved, &text::chars_of("https://registry.yarnpkg.com/"))
            || text::starts_with(&e.resolved, &text::chars_of("https://registry.npmjs.org/"));
        let p = Package {
            name,
            version,
            key,
            dev: false,
            optional: false,
            first_party: false,
            install_script: false,
            has_integrity: e.integrity,
            pinned: Pin::Exact,
            origin: if registry {
                Origin::Registry
            } else {
                Origin::Elsewhere
            },
        };
        proof {
            assert(p@ == entry_package(ev[i as int]));
        }
        let ghost old_p = packages@;
        packages.push(p);
        proof {
            assert(lock::package_views(packages@) =~= lock::package_views(old_p).push(p@));
            assert(ev.take(i + 1).map_values(|e: YEntry| entry_package(e)) =~= ev.take(i as int).map_values(
                |e: YEntry| entry_package(e),
            ).push(entry_package(ev[i as int])));
        }
    }
    proof {
        assert(ev.take(entries@.len() as int) =~= ev);
    }
    let mut edges: Vec<(usize, usize)> = Vec::new();
    for f in 0..entries.len()
        invariant
            ev == entries_view(entries@),
            forall|i: int, j: int| 0 <= i < j < edges@.len() ==> pair_lt(#[trigger] edges@[i], #[trigger] edges@[j]),
            forall|v: (usize, usize)| #[trigger] edges@.contains(v) <==> (v.0 < f && is_edge(ev, v.0 as int, v.1 as int)),
    {
        let e = &entries[f];
        proof {
            assert(ev[f as int] == entry_view(e));
        }
        let ghost mid = edges@;
        for k in 0..e.deps.len()
            invariant
                ev == entries_view(entries@),
                ev[f as int] == entry_view(e),
                f < entries@.len(),
                forall|i: int, j: int| 0 <= i < j < edges@.len() ==> pair_lt(#[trigger] edges@[i], #[trigger] edges@[j]),
                forall|v: (usize, usize)| #[trigger] edges@.contains(v) <==> (mid.contains(v) || (v.0 == f && exists|x: int|
                    0 <= x < k && resolve_dep(ev, #[trigger] ev[f as int].deps[x], ev.len() as int) == Some(v.1 as int))),
        {
            proof {
                assert(ev[f as int].deps[k as int] == e.deps@[k as int]@);
            }
            match resolve(entries, &e.deps[k]) {
                Some(to) => {
                    insert_edge(&mut edges, (f, to));
                },
                None => {},
            }
            proof {
                assert forall|v: (usize, usize)| #[trigger] edges@.contains(v) <==> (mid.contains(v) || (v.0 == f && exists|x: int|
                    0 <= x < k + 1 && resolve_dep(ev, #[trigger] ev[f as int].deps[x], ev.len() as int) == Some(v.1 as int))) by {
                    if v.0 == f && exists|x: int| 0 <= x < k + 1 && resolve_dep(ev, #[trigger] ev[f as int].deps[x], ev.len() as int) == Some(v.1 as int) {
                        let x = choose|x: int| 0 <= x < k + 1 && resolve_dep(ev, #[trigger] ev[f as int].deps[x], ev.len() as int) == Some(v.1 as int);
                        if x == k {
                        }
                    }
                }
            }
        }
        proof {
            assert forall|v: (usize, usize)| #[trigger] edges@.contains(v) <==> (v.0 < f + 1 && is_edge(ev, v.0 as int, v.1 as int)) by {
                if v.0 == f && is_edge(ev, v.0 as int, v.1 as int) {
                    let x = choose|x: int| 0 <= x < ev[f as int].deps.len() && resolve_dep(ev, #[trigger] ev[f as int].deps[x], ev.len() as int) == Some(v.1 as int);
                }
            }
        }
    }
    let mut roots: Vec<usize> = Vec::new();
    for i in 0..entries.len()
        invariant
            ev == entries_view(entries@),
            forall|v: (usize, usize)| #[trigger] edges@.contains(v) <==> (v.0 < entries@.len() && is_edge(ev, v.0 as int, v.1 as int)),
            roots@ == yarn_roots(ev, i as int),
    {
        let mut pointed = false;
        for k in 0..edges.len()
            invariant
                pointed == exists|x: int| 0 <= x < k && (#[trigger] edges@[x]).1 == i,
        {
            if edges[k].1 == i {
                pointed = true;
            }
        }
        proof {
            if exists|g: int| #[trigger] is_edge(ev, g, i as int) {
                let g = choose|g: int| #[trigger] is_edge(ev, g, i as int);
                assert(edges@.contains((g as usize, i)));
            }
            if pointed {
                let x = choose|x: int| 0 <= x < edges@.len() && (#[trigger] edges@[x]).1 == i;
                assert(edges@.contains(edges@[x]));
                assert(is_edge(ev, edges@[x].0 as int, i as int));
            }
        }
        if !pointed {
            roots.push(i);
        }
    }
    Tree {
        ecosystem: Ecosystem::Npm,
        source: text::owned(path),
        packages,
        edges,
        roots,
        records_edges: true,
        records_install_scripts: false,
    }
}

/// `tree` is what the finished entries make.
pub open spec fn yarn_tree(entries: Seq<YEntry>, path: Seq<char>, tree: Tree) -> bool {
    &&& tree.ecosystem == Ecosystem::Npm
    &&& tree.source@ == path
    &&& lock::package_views(tree.packages@) == entries.map_values(|e: YEntry| entry_package(e))
    &&& forall|i: int, j: int|
        0 <= i < j < tree.edges@.len() ==> pair_lt(#[trigger] tree.edges@[i], #[trigger] tree.edges@[j])
    &&& forall|v: (usize, usize)| #[trigger]
        tree.edges@.contains(v) <==> (v.0 < entries.len() && is_edge(entries, v.0 as int, v.1 as int))
    &&& tree.roots@ == yarn_roots(entries, entries.len() as int)
    &&& tree.records_edges
    &&& !tree.records_install_scripts
}

/// What reading `src` as a yarn.lock at `path` gives.
pub open spec fn read_spec(path: Seq<char>, src: Seq<char>, r: Result<Tree>) -> bool {
    match y_read(path, src) {
        Err(YError::Syntax(w, l, c)) => r matches Err(Error::Syntax { what, line, col }) && what@
            == w && line == l && col == c,
        Err(YError::Usage(m)) => r matches Err(Error::Usage(msg)) && msg@ == m,
        Ok(entries) => r matches Ok(tree) && yarn_tree(entries, path, tree),
    }
}

/// Read a yarn.lock.
pub fn read(path: &str, src: &str) -> (r: Result<Tree>)
    requires
        src@.len() < u32::MAX,
        src@.len() <= usize::MAX / 4,
    ensures
        read_spec(path@, src@, r),
{
    let lines = text::lines_of(src);
    let ghost ls = lines@.map_values(|l: String| l@);
    proof {
        text::lemma_lines_len(src@);
        text::lemma_lines_total(src@);
    }
    if berry(&lines) {
        let mut msg = text::owned(path);
        text::append(&mut msg, ": this is a Yarn Berry (v2+) lockfile; stranger reads the v1 format");
        return Err(Error::usage(msg.as_str()));
    }
    let mut entries: Vec<Entry> = Vec::new();
    let mut cur: Option<Entry> = None;
    proof {
        assert(entries_view(entries@) =~= Seq::<YEntry>::empty());
    }
    for i in 0..lines.len()
        invariant
            ls == lines@.map_values(|l: String| l@),
            ls == text::lines(src@),
            ls.len() <= src@.len(),
            src@.len() < u32::MAX,
            text::total(ls) <= src@.len(),
            src@.len() <= usize::MAX / 4,
            !is_berry(ls),
            named(&entries, &cur),
            y_run(ls.take(i as int)) == Ok::<YState, YError>(state_view(&entries, &cur)),
    {
        let n = (i as u32) + 1;
        let raw = text::chars_of(lines[i].as_str());
        proof {
            assert(ls.take(i + 1).drop_last() =~= ls.take(i as int));
            assert(ls.take(i + 1).last() == raw@);
            lemma_total_take(ls, i as int);
        }
        match step(&mut entries, &mut cur, &raw, n) {
            Ok(()) => {},
            Err(e) => {
                proof {
                    lemma_run_err(ls, i + 1);
                }
                return Err(e);
            },
        }
    }
    proof {
        assert(ls.take(ls.len() as int) =~= ls);
    }
    match finish_entry(&mut entries, &mut cur) {
        Ok(()) => {},
        Err(e) => return Err(e),
    }
    Ok(build(&entries, path))
}

} // verus!
