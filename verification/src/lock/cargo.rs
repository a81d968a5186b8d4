//! Cargo.lock: an array of `[[package]]` tables and nothing else.
//!
//! Each entry lists its dependencies as strings, written in the shortest
//! form that is unambiguous: `"bytes"`, `"winapi 0.3.9"` when two entries
//! share the name, `"qux 1.0.0 (registry+https://...)"` when they share the
//! version too.
//!
//! An entry with no `source` key is a workspace member or a path dependency:
//! somebody in this repository wrote it, so its edges go to `roots` rather
//! than counting as evidence that a name is real. A git dependency has a
//! source and is not first-party.
//!
//! The file does not record dev or optional dependencies, nor build scripts,
//! so those are `false` on every package, and the tree says it does not
//! record install scripts.
use crate::error::{Error, Result};
use crate::json;
use crate::lock::{self, Ecosystem, Origin, Package, PackageView, Pin, PinView, Tree};
use crate::text;
use crate::toml::{self, or_empty, tfield, tget, tstr, TValue, Value};
use vstd::prelude::*;

verus! {

pub open spec fn ename(e: TValue) -> Seq<char> {
    or_empty(tstr(tfield(e, "name"@)))
}

pub open spec fn ever(e: TValue) -> Seq<char> {
    or_empty(tstr(tfield(e, "version"@)))
}

pub open spec fn esource(e: TValue) -> Option<Seq<char>> {
    tstr(tfield(e, "source"@))
}

/// One `[[package]]` entry as a package. `name version` is the key because
/// names repeat, and it is the string Cargo itself writes to tell two apart.
pub open spec fn cargo_package(e: TValue) -> PackageView {
    PackageView {
        name: ename(e),
        version: ever(e),
        key: ename(e) + " "@ + ever(e),
        dev: false,
        optional: false,
        first_party: esource(e) is None,
        install_script: false,
        has_integrity: tfield(e, "checksum"@) is Some,
        pinned: PinView::Exact,
        origin: if esource(e) matches Some(u) && "registry+"@.is_prefix_of(u) {
            Origin::Registry
        } else {
            Origin::Elsewhere
        },
    }
}

/// The first of the first `n` entries without a name or a version, and the
/// key it lacks.
pub open spec fn first_missing(items: Seq<TValue>, n: int) -> Option<(int, Seq<char>)>
    decreases n,
{
    if n <= 0 {
        None
    } else {
        match first_missing(items, n - 1) {
            Some(x) => Some(x),
            None => if tstr(tfield(items[n - 1], "name"@)) is None {
                Some((n - 1, "name"@))
            } else if tstr(tfield(items[n - 1], "version"@)) is None {
                Some((n - 1, "version"@))
            } else {
                None
            },
        }
    }
}

pub open spec fn missing_msg(path: Seq<char>, i: int, k: Seq<char>) -> Seq<char> {
    path + ": [[package]] #"@ + text::decimal((i + 1) as nat) + " has no `"@ + k + "`"@
}

pub open spec fn no_packages(path: Seq<char>) -> Seq<char> {
    path + ": no [[package]] entries; this does not look like a Cargo.lock"@
}

/// The first whitespace at or after `i`, or the length.
pub open spec fn space_at(s: Seq<char>, i: int) -> int
    decreases s.len() - i,
{
    if i >= s.len() {
        s.len() as int
    } else if text::is_space(s[i]) {
        i
    } else {
        space_at(s, i + 1)
    }
}

/// A dependency string as its name, version and parenthesised source. None
/// of the three can hold a space, and a last token without its parentheses
/// is dropped, leaving the two parts that decide the edge.
pub open spec fn split_dep(dep: Seq<char>) -> (Seq<char>, Option<Seq<char>>, Option<Seq<char>>) {
    let d = text::trim(dep);
    let i = space_at(d, 0);
    if i >= d.len() {
        (d, None, None)
    } else {
        let rest = text::trim_start(d.skip(i + 1));
        let j = space_at(rest, 0);
        if j >= rest.len() {
            (d.take(i), Some(rest), None)
        } else {
            let tail = text::trim(rest.skip(j + 1));
            (
                d.take(i),
                Some(rest.take(j)),
                if tail.len() >= 2 && tail[0] == '(' && tail.last() == ')' {
                    Some(tail.subrange(1, tail.len() - 1))
                } else {
                    None
                },
            )
        }
    }
}

/// Entry `e` is one the dependency could mean.
pub open spec fn fits(e: TValue, name: Seq<char>, ver: Option<Seq<char>>, src: Option<Seq<char>>) -> bool {
    &&& ename(e) == name
    &&& (ver matches Some(v) ==> ever(e) == v)
    &&& (src matches Some(s) ==> esource(e) == Some(s))
}

/// The first entry from `i` on that fits.
pub open spec fn first_fit(
    items: Seq<TValue>,
    name: Seq<char>,
    ver: Option<Seq<char>>,
    src: Option<Seq<char>>,
    i: int,
) -> Option<usize>
    decreases items.len() - i,
{
    if i >= items.len() {
        None
    } else if fits(items[i], name, ver, src) {
        Some(i as usize)
    } else {
        first_fit(items, name, ver, src, i + 1)
    }
}

/// The entry a dependency string names: the name picks the candidates, a
/// version picks among them, a source breaks a tie the version could not,
/// and a source that matches nothing still leaves the version.
pub open spec fn cargo_resolve(items: Seq<TValue>, dep: Seq<char>) -> Option<usize> {
    let (name, ver, src) = split_dep(dep);
    match ver {
        None => first_fit(items, name, None, None, 0),
        Some(v) => if src is Some && first_fit(items, name, Some(v), src, 0) is Some {
            first_fit(items, name, Some(v), src, 0)
        } else {
            first_fit(items, name, Some(v), None, 0)
        },
    }
}

/// The strings among `vs`, in order.
pub open spec fn strs(vs: Seq<TValue>) -> Seq<Seq<char>>
    decreases vs.len(),
{
    if vs.len() == 0 {
        seq![]
    } else {
        let rest = strs(vs.drop_last());
        match vs.last() {
            TValue::Str(s) => rest.push(s),
            _ => rest,
        }
    }
}

/// The dependency strings of an entry.
pub open spec fn deps_of(e: TValue) -> Seq<Seq<char>> {
    match tfield(e, "dependencies"@) {
        Some(TValue::Array(vs)) => strs(vs),
        _ => seq![],
    }
}

/// The edges and root links of the dependencies `deps` of entry `from`. A
/// string naming no entry is skipped: a missing edge only lowers in-degree,
/// which makes a finding more likely, not less.
pub open spec fn dep_links(items: Seq<TValue>, ours: bool, from: usize, deps: Seq<Seq<char>>) -> (
    Seq<(usize, usize)>,
    Seq<usize>,
)
    decreases deps.len(),
{
    if deps.len() == 0 {
        (seq![], seq![])
    } else {
        let (e, r) = dep_links(items, ours, from, deps.drop_last());
        match cargo_resolve(items, deps.last()) {
            None => (e, r),
            Some(to) => if ours {
                (e, r.push(to))
            } else {
                (e.push((from, to)), r)
            },
        }
    }
}

/// The edges and root links of the first `n` entries.
pub open spec fn all_links(items: Seq<TValue>, n: int) -> (Seq<(usize, usize)>, Seq<usize>)
    decreases n,
{
    if n <= 0 {
        (seq![], seq![])
    } else {
        let (e, r) = all_links(items, n - 1);
        let entry = items[n - 1];
        let (e2, r2) = dep_links(items, esource(entry) is None, (n - 1) as usize, deps_of(entry));
        (e + e2, r + r2)
    }
}

/// The tree the `[[package]]` entries describe.
pub open spec fn cargo_tree(path: Seq<char>, items: Seq<TValue>, tree: Tree) -> bool {
    let pkgs = items.map_values(|e: TValue| cargo_package(e));
    let (edges, raw) = all_links(items, items.len() as int);
    &&& tree.ecosystem == Ecosystem::Crates
    &&& tree.source@ == path
    &&& lock::package_views(tree.packages@) == pkgs
    &&& tree.edges@ == edges
    &&& forall|i: int, j: int| 0 <= i < j < tree.roots@.len() ==> tree.roots@[i] < tree.roots@[j]
    &&& forall|x: usize| #[trigger]
        tree.roots@.contains(x) <==> (raw.contains(x) && x < pkgs.len() && !pkgs[x as int].first_party)
    &&& tree.records_edges
    &&& !tree.records_install_scripts
}

/// What reading `src` as a Cargo.lock at `path` gives.
pub open spec fn read_spec(path: Seq<char>, src: Seq<char>, r: Result<Tree>) -> bool {
    match toml::parse_spec(src) {
        Err((w, at)) => r matches Err(e) && json::syntax_at(toml::body(src), w, at, e),
        Ok(root) => match tget(root, "package"@) {
            Some(TValue::Array(items)) => match first_missing(items, items.len() as int) {
                Some((i, k)) => r matches Err(Error::Usage(m)) && m@ == missing_msg(path, i, k),
                None => r matches Ok(t) && cargo_tree(path, items, t),
            },
            _ => r matches Err(Error::Usage(m)) && m@ == no_packages(path),
        },
    }
}

pub open spec fn opt_chars(v: Option<Vec<char>>) -> Option<Seq<char>> {
    match v {
        Some(x) => Some(x@),
        None => None,
    }
}

fn field_str(entry: &Value, k: &str) -> (r: Option<String>)
    ensures
        match tstr(tfield(toml::tview(*entry), k@)) {
            Some(s) => r matches Some(x) && x@ == s,
            None => r is None,
        },
{
    match entry.get(k) {
        Some(v) => match v.as_str() {
            Some(s) => Some(text::owned(s)),
            None => None,
        },
        None => None,
    }
}

/// The first whitespace at or after `i`.
fn space_from(s: &Vec<char>, i: usize) -> (r: usize)
    requires
        i <= s@.len(),
    ensures
        r == space_at(s@, i as int),
        i <= r <= s@.len(),
{
    let mut k = i;
    while k < s.len() && !text::space(s[k])
        invariant
            i <= k <= s@.len(),
            space_at(s@, i as int) == space_at(s@, k as int),
        decreases s@.len() - k,
    {
        k = k + 1;
    }
    k
}

/// `s` from `from` on, without the whitespace it starts with.
fn rest_from(s: &Vec<char>, from: usize) -> (r: Vec<char>)
    requires
        from <= s@.len(),
    ensures
        r@ == text::trim_start(s@.skip(from as int)),
{
    let mut k = from;
    while k < s.len() && text::space(s[k])
        invariant
            from <= k <= s@.len(),
            text::trim_start(s@.skip(from as int)) == text::trim_start(s@.skip(k as int)),
        decreases s@.len() - k,
    {
        proof {
            assert(s@.skip(k as int).drop_first() =~= s@.skip(k + 1));
        }
        k = k + 1;
    }
    let r = text::slice(s, k, s.len());
    proof {
        assert(r@ =~= s@.skip(k as int));
    }
    r
}

fn split_of(dep: &Vec<char>) -> (r: (Vec<char>, Option<Vec<char>>, Option<Vec<char>>))
    ensures
        (r.0@, opt_chars(r.1), opt_chars(r.2)) == split_dep(dep@),
{
    let d = text::trimmed(dep);
    let i = space_from(&d, 0);
    if i >= d.len() {
        return (d, None, None);
    }
    let name = text::slice(&d, 0, i);
    let rest = rest_from(&d, i + 1);
    let j = space_from(&rest, 0);
    if j >= rest.len() {
        proof {
            assert(name@ =~= d@.take(i as int));
        }
        return (name, Some(rest), None);
    }
    let version = text::slice(&rest, 0, j);
    let after = text::slice(&rest, j + 1, rest.len());
    let tail = text::trimmed(&after);
    let n = tail.len();
    let source = if n >= 2 && tail[0] == '(' && tail[n - 1] == ')' {
        Some(text::slice(&tail, 1, n - 1))
    } else {
        None
    };
    proof {
        assert(name@ =~= d@.take(i as int));
        assert(version@ =~= rest@.take(j as int));
        assert(after@ =~= rest@.skip(j + 1));
    }
    (name, Some(version), source)
}

/// What the reader keeps of every entry to resolve a dependency string.
struct Known {
    names: Vec<Vec<char>>,
    versions: Vec<Vec<char>>,
    sources: Vec<Option<Vec<char>>>,
}

impl Known {
    spec fn of(&self, items: Seq<TValue>) -> bool {
        &&& self.names@.len() == items.len()
        &&& self.versions@.len() == items.len()
        &&& self.sources@.len() == items.len()
        &&& forall|i: int|
            0 <= i < items.len() ==> {
                &&& (#[trigger] self.names@[i])@ == ename(items[i])
                &&& self.versions@[i]@ == ever(items[i])
                &&& opt_chars(self.sources@[i]) == esource(items[i])
            }
    }

    /// The first entry that fits.
    fn first_fit_of(
        &self,
        Ghost(items): Ghost<Seq<TValue>>,
        name: &Vec<char>,
        ver: &Option<Vec<char>>,
        src: &Option<Vec<char>>,
    ) -> (r: Option<usize>)
        requires
            self.of(items),
        ensures
            r == first_fit(items, name@, opt_chars(*ver), opt_chars(*src), 0),
    {
        let n = self.names.len();
        let mut i: usize = 0;
        while i < n
            invariant
                self.of(items),
                n == items.len(),
                i <= n,
                first_fit(items, name@, opt_chars(*ver), opt_chars(*src), 0) == first_fit(
                    items,
                    name@,
                    opt_chars(*ver),
                    opt_chars(*src),
                    i as int,
                ),
            decreases n - i,
        {
            let name_ok = text::same_chars(&self.names[i], name);
            let ver_ok = match ver {
                Some(v) => text::same_chars(&self.versions[i], v),
                None => true,
            };
            let src_ok = match src {
                Some(s) => match &self.sources[i] {
                    Some(x) => text::same_chars(x, s),
                    None => false,
                },
                None => true,
            };
            if name_ok && ver_ok && src_ok {
                return Some(i);
            }
            i = i + 1;
        }
        None
    }

    /// The entry a dependency string names, if any.
    fn resolve(&self, Ghost(items): Ghost<Seq<TValue>>, dep: &Vec<char>) -> (r: Option<usize>)
        requires
            self.of(items),
        ensures
            r == cargo_resolve(items, dep@),
            r matches Some(i) ==> i < items.len(),
    {
        let (name, ver, src) = split_of(dep);
        let _n = self.names.len();
        let none: Option<Vec<char>> = None;
        let r = match ver {
            None => self.first_fit_of(Ghost(items), &name, &none, &none),
            Some(_) => {
                let exact = if src.is_some() {
                    self.first_fit_of(Ghost(items), &name, &ver, &src)
                } else {
                    None
                };
                if exact.is_some() {
                    exact
                } else {
                    self.first_fit_of(Ghost(items), &name, &ver, &none)
                }
            },
        };
        proof {
            lemma_first_fit_bound(items, name@, opt_chars(ver), opt_chars(src), 0);
            lemma_first_fit_bound(items, name@, opt_chars(ver), None, 0);
            lemma_first_fit_bound(items, name@, None, None, 0);
        }
        r
    }
}

proof fn lemma_first_fit_bound(
    items: Seq<TValue>,
    name: Seq<char>,
    ver: Option<Seq<char>>,
    src: Option<Seq<char>>,
    i: int,
)
    requires
        0 <= i,
        items.len() <= usize::MAX,
    ensures
        first_fit(items, name, ver, src, i) matches Some(k) ==> i <= k < items.len(),
    decreases items.len() - i,
{
    if i < items.len() && !fits(items[i], name, ver, src) {
        lemma_first_fit_bound(items, name, ver, src, i + 1);
    }
}

/// The dependency strings of an entry.
fn deps_list(entry: &Value) -> (r: Vec<Vec<char>>)
    ensures
        text::seqs(r@) == deps_of(toml::tview(*entry)),
{
    let mut out: Vec<Vec<char>> = Vec::new();
    proof {
        assert(text::seqs(out@) =~= seq![]);
    }
    match entry.get("dependencies") {
        Some(v) => match v {
            Value::Array(vs) => {
                proof {
                    toml::lemma_tview_array(*vs);
                }
                let ghost tv = toml::tviews(vs@);
                for i in 0..vs.len()
                    invariant
                        tv == toml::tviews(vs@),
                        text::seqs(out@) == strs(tv.take(i as int)),
                {
                    proof {
                        assert(tv.take(i + 1).drop_last() =~= tv.take(i as int));
                        assert(tv.take(i + 1).last() == toml::tview(vs@[i as int]));
                    }
                    match &vs[i] {
                        Value::String(s) => {
                            let ghost before = out@;
                            out.push(text::chars_of(s.as_str()));
                            proof {
                                assert(text::seqs(out@) =~= text::seqs(before).push(s@));
                            }
                        },
                        _ => {},
                    }
                }
                proof {
                    assert(tv.take(vs@.len() as int) =~= tv);
                }
            },
            _ => {},
        },
        None => {},
    }
    out
}

/// One entry as a package; it has a name and a version.
fn package_of(entry: &Value) -> (p: Package)
    requires
        tstr(tfield(toml::tview(*entry), "name"@)) is Some,
        tstr(tfield(toml::tview(*entry), "version"@)) is Some,
    ensures
        p@ == cargo_package(toml::tview(*entry)),
{
    let name = match field_str(entry, "name") {
        Some(s) => s,
        None => String::new(),
    };
    let version = match field_str(entry, "version") {
        Some(s) => s,
        None => String::new(),
    };
    let source = field_str(entry, "source");
    let mut key = name.clone();
    text::append(&mut key, " ");
    text::append(&mut key, version.as_str());
    let origin = match &source {
        Some(u) => {
            let uc = text::chars_of(u.as_str());
            let reg = text::chars_of("registry+");
            if text::starts_with(&uc, &reg) {
                Origin::Registry
            } else {
                Origin::Elsewhere
            }
        },
        None => Origin::Elsewhere,
    };
    Package {
        name,
        version,
        key,
        dev: false,
        optional: false,
        first_party: source.is_none(),
        install_script: false,
        has_integrity: entry.get("checksum").is_some(),
        pinned: Pin::Exact,
        origin,
    }
}

/// The links of the dependencies `deps` of entry `from`, appended.
fn links_of(
    known: &Known,
    Ghost(items): Ghost<Seq<TValue>>,
    ours: bool,
    from: usize,
    deps: &Vec<Vec<char>>,
    edges: &mut Vec<(usize, usize)>,
    roots: &mut Vec<usize>,
)
    requires
        known.of(items),
    ensures
        final(edges)@ == old(edges)@ + dep_links(items, ours, from, text::seqs(deps@)).0,
        final(roots)@ == old(roots)@ + dep_links(items, ours, from, text::seqs(deps@)).1,
        forall|i: int|
            old(edges)@.len() <= i < final(edges)@.len() ==> (#[trigger] final(edges)@[i]).0 == from
                && final(edges)@[i].1 < items.len(),
        forall|i: int|
            old(roots)@.len() <= i < final(roots)@.len() ==> #[trigger] final(roots)@[i] < items.len(),
{
    let ghost ds = text::seqs(deps@);
    let ghost e0 = edges@;
    let ghost r0 = roots@;
    for j in 0..deps.len()
        invariant
            known.of(items),
            ds == text::seqs(deps@),
            edges@ == e0 + dep_links(items, ours, from, ds.take(j as int)).0,
            roots@ == r0 + dep_links(items, ours, from, ds.take(j as int)).1,
            edges@.len() >= e0.len(),
            roots@.len() >= r0.len(),
            forall|i: int|
                e0.len() <= i < edges@.len() ==> (#[trigger] edges@[i]).0 == from && edges@[i].1
                    < items.len(),
            forall|i: int| r0.len() <= i < roots@.len() ==> #[trigger] roots@[i] < items.len(),
    {
        proof {
            assert(ds.take(j + 1).drop_last() =~= ds.take(j as int));
            assert(ds.take(j + 1).last() == deps@[j as int]@);
        }
        let ghost eb = edges@;
        let ghost rb = roots@;
        match known.resolve(Ghost(items), &deps[j]) {
            Some(to) => {
                if ours {
                    roots.push(to);
                    proof {
                        assert(roots@ =~= r0 + dep_links(items, ours, from, ds.take(j + 1)).1);
                        assert forall|i: int| r0.len() <= i < roots@.len() implies #[trigger] roots@[i]
                            < items.len() by {
                            if i < rb.len() {
                                assert(roots@[i] == rb[i]);
                            }
                        }
                    }
                } else {
                    edges.push((from, to));
                    proof {
                        assert(edges@ =~= e0 + dep_links(items, ours, from, ds.take(j + 1)).0);
                        assert forall|i: int| e0.len() <= i < edges@.len() implies (#[trigger] edges@[i]).0
                            == from && edges@[i].1 < items.len() by {
                            if i < eb.len() {
                                assert(edges@[i] == eb[i]);
                            }
                        }
                    }
                }
            },
            None => {},
        }
    }
    proof {
        assert(ds.take(ds.len() as int) =~= ds);
    }
}

proof fn lemma_first_missing_stays(items: Seq<TValue>, a: int, b: int)
    requires
        0 <= a <= b,
        first_missing(items, a) is Some,
    ensures
        first_missing(items, b) == first_missing(items, a),
    decreases b - a,
{
    if b > a {
        lemma_first_missing_stays(items, a, b - 1);
    }
}

fn missing(path: &str, i: usize, k: &str) -> (e: Error)
    requires
        i < usize::MAX,
    ensures
        e matches Error::Usage(m) && m@ == missing_msg(path@, i as int, k@),
{
    let mut m = text::owned(path);
    text::append(&mut m, ": [[package]] #");
    text::append(&mut m, text::decimal_of((i + 1) as u64).as_str());
    text::append(&mut m, " has no `");
    text::append(&mut m, k);
    text::append(&mut m, "`");
    Error::usage(m.as_str())
}

proof fn lemma_known_push(before: Known, after: Known, items: Seq<TValue>, e: TValue)
    requires
        before.of(items),
        after.names@ == before.names@.push(after.names@.last()),
        after.versions@ == before.versions@.push(after.versions@.last()),
        after.sources@ == before.sources@.push(after.sources@.last()),
        after.names@.last()@ == ename(e),
        after.versions@.last()@ == ever(e),
        opt_chars(after.sources@.last()) == esource(e),
    ensures
        after.of(items.push(e)),
{
    let t = items.push(e);
    assert forall|k: int| 0 <= k < t.len() implies {
        &&& (#[trigger] after.names@[k])@ == ename(t[k])
        &&& after.versions@[k]@ == ever(t[k])
        &&& opt_chars(after.sources@[k]) == esource(t[k])
    } by {
        if k < items.len() {
            assert(after.names@[k] == before.names@[k]);
            assert(after.versions@[k] == before.versions@[k]);
            assert(after.sources@[k] == before.sources@[k]);
        }
    }
}

/// Take in entry `i`: its package, and what resolving a dependency string
/// needs of it. Refused when it lacks a name or a version.
fn take_entry(path: &str, entry: &Value, i: usize, packages: &mut Vec<Package>, known: &mut Known) -> (r: Result<()>)
    requires
        i < usize::MAX,
    ensures
        match (tstr(tfield(toml::tview(*entry), "name"@)), tstr(tfield(toml::tview(*entry), "version"@))) {
            (None, _) => r matches Err(Error::Usage(m)) && m@ == missing_msg(path@, i as int, "name"@),
            (_, None) => r matches Err(Error::Usage(m)) && m@ == missing_msg(path@, i as int, "version"@),
            _ => r is Ok,
        },
        r is Ok ==> {
            &&& final(packages)@ == old(packages)@.push(final(packages)@.last())
            &&& final(packages)@.last()@ == cargo_package(toml::tview(*entry))
            &&& final(known).names@ == old(known).names@.push(final(known).names@.last())
            &&& final(known).versions@ == old(known).versions@.push(final(known).versions@.last())
            &&& final(known).sources@ == old(known).sources@.push(final(known).sources@.last())
            &&& final(known).names@.last()@ == ename(toml::tview(*entry))
            &&& final(known).versions@.last()@ == ever(toml::tview(*entry))
            &&& opt_chars(final(known).sources@.last()) == esource(toml::tview(*entry))
        },
{
    let name = match field_str(entry, "name") {
        Some(s) => s,
        None => {
            return Err(missing(path, i, "name"));
        },
    };
    let version = match field_str(entry, "version") {
        Some(s) => s,
        None => {
            return Err(missing(path, i, "version"));
        },
    };
    let source = field_str(entry, "source");
    packages.push(package_of(entry));
    known.names.push(text::chars_of(name.as_str()));
    known.versions.push(text::chars_of(version.as_str()));
    let sc = match &source {
        Some(s) => Some(text::chars_of(s.as_str())),
        None => None,
    };
    known.sources.push(sc);
    Ok(())
}

/// Read a Cargo.lock.
pub fn read(path: &str, src: &str) -> (r: Result<Tree>)
    requires
        src@.len() < u32::MAX,
    ensures
        read_spec(path@, src@, r),
{
    let doc = toml::parse(src)?;
    let items: &[Value] = match doc.get("package") {
        Some(v) => match v.as_array() {
            Some(a) => {
                proof {
                    match v {
                        Value::Array(it) => toml::lemma_tview_array(*it),
                        _ => {},
                    }
                }
                a
            },
            None => {
                let mut m = text::owned(path);
                text::append(&mut m, ": no [[package]] entries; this does not look like a Cargo.lock");
                return Err(Error::usage(m.as_str()));
            },
        },
        None => {
            let mut m = text::owned(path);
            text::append(&mut m, ": no [[package]] entries; this does not look like a Cargo.lock");
            return Err(Error::usage(m.as_str()));
        },
    };
    let ghost tv = toml::tviews(items@);
    let n = items.len();
    let mut packages: Vec<Package> = Vec::new();
    let mut known = Known { names: Vec::new(), versions: Vec::new(), sources: Vec::new() };
    proof {
        assert(tv.take(0) =~= seq![]);
        assert(lock::package_views(packages@) =~= seq![]);
    }
    proof {
        assert(toml::parse_spec(src@) matches Ok(root) && tget(root, "package"@) == Some(TValue::Array(tv)));
    }
    for i in 0..n
        invariant
            n == items@.len(),
            tv == toml::tviews(items@),
            toml::parse_spec(src@) matches Ok(root) && tget(root, "package"@) == Some(TValue::Array(tv)),
            first_missing(tv, i as int) is None,
            lock::package_views(packages@) == tv.take(i as int).map_values(|e: TValue| cargo_package(e)),
            known.of(tv.take(i as int)),
    {
        let entry = &items[i];
        proof {
            assert(tv[i as int] == toml::tview(*entry));
        }
        let ghost pb = packages@;
        let ghost kb = known;
        match take_entry(path, entry, i, &mut packages, &mut known) {
            Ok(()) => {},
            Err(e) => {
                proof {
                    let e0 = tv[i as int];
                    if tstr(tfield(e0, "name"@)) is None {
                        assert(first_missing(tv, i + 1) == Some((i as int, "name"@)));
                    } else {
                        assert(first_missing(tv, i + 1) == Some((i as int, "version"@)));
                    }
                    lemma_first_missing_stays(tv, i + 1, tv.len() as int);
                    assert(tv.len() == items@.len());
                }
                return Err(e);
            },
        }
        proof {
            let t1 = tv.take(i + 1);
            assert(t1 =~= tv.take(i as int).push(tv[i as int]));
            assert(lock::package_views(packages@) =~= lock::package_views(pb).push(packages@.last()@));
            assert(t1.map_values(|e: TValue| cargo_package(e)) =~= tv.take(i as int).map_values(
                |e: TValue| cargo_package(e),
            ).push(cargo_package(tv[i as int])));
            lemma_known_push(kb, known, tv.take(i as int), tv[i as int]);
        }
    }
    proof {
        assert(tv.take(n as int) =~= tv);
    }
    let ghost pkgs = tv.map_values(|e: TValue| cargo_package(e));
    let mut edges: Vec<(usize, usize)> = Vec::new();
    let mut raw: Vec<usize> = Vec::new();
    for from in 0..n
        invariant
            n == items@.len(),
            tv == toml::tviews(items@),
            known.of(tv),
            n == packages@.len(),
            lock::package_views(packages@) == pkgs,
            pkgs == tv.map_values(|e: TValue| cargo_package(e)),
            (edges@, raw@) == all_links(tv, from as int),
    {
        let deps = deps_list(&items[from]);
        proof {
            assert(tv[from as int] == toml::tview(items@[from as int]));
            assert(lock::package_views(packages@)[from as int] == pkgs[from as int]);
        }
        links_of(&known, Ghost(tv), packages[from].first_party, from, &deps, &mut edges, &mut raw);
        proof {
            assert(edges@ =~= all_links(tv, from + 1).0);
            assert(raw@ =~= all_links(tv, from + 1).1);
        }
    }
    let roots = lock::keep_roots(&raw, &packages);
    let t = Tree {
        ecosystem: Ecosystem::Crates,
        source: text::owned(path),
        packages,
        edges,
        roots,
        records_edges: true,
        records_install_scripts: false,
    };
    proof {
        assert forall|x: usize| #[trigger] t.roots@.contains(x) <==> (raw@.contains(x) && x < pkgs.len()
            && !pkgs[x as int].first_party) by {
            if x < pkgs.len() {
                assert(lock::package_views(t.packages@)[x as int] == pkgs[x as int]);
            }
        }
    }
    Ok(t)
}

} // verus!
