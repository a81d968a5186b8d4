//! poetry.lock and uv.lock: the two Python lockfiles that record a graph.
//!
//! `requirements.txt` records no edges, so every package in it has in-degree
//! zero and "nothing depends on this name" rules nothing out. These two
//! record the resolved graph, which is the reason to read them.
//!
//! Both spell names loosely: a dependency says `charset_normalizer` for the
//! package called `charset-normalizer`. Names are therefore compared after
//! PEP 503 normalisation on both sides; comparing them as written would drop
//! the edge and hand the far end an in-degree of zero, the very shape the
//! slopsquat rule fires on. `Package::name` keeps the name as written.
//!
//! poetry.lock does not record the root project, so the roots are derived:
//! an entry nothing depends on can only have come from the root manifest.
//! uv.lock records it as the entry whose source is `editable`, `virtual` or
//! `directory`, and its dependency list lands in `roots`.
//!
//! Neither format says that a package runs code at install time.
use crate::corpus;
use crate::error::{Error, Result};
use crate::json;
use crate::lock::{self, Ecosystem, Origin, Package, PackageView, Pin, PinView, Tree};
use crate::text;
use crate::toml::{self, or_empty, tbool, tfield, tget, tstr, TValue, Value};
use vstd::prelude::*;

verus! {

pub open spec fn pname(e: TValue) -> Seq<char> {
    or_empty(tstr(tfield(e, "name"@)))
}

pub open spec fn pversion(e: TValue) -> Seq<char> {
    or_empty(tstr(tfield(e, "version"@)))
}

/// The member `k` of an optional value.
pub open spec fn sub_field(v: Option<TValue>, k: Seq<char>) -> Option<TValue> {
    match v {
        Some(x) => tfield(x, k),
        None => None,
    }
}

/// `v` is a table with a member `k`.
pub open spec fn has_member(v: Option<TValue>, k: Seq<char>) -> bool {
    match v {
        Some(TValue::Table(m)) => toml::has_key(m, k),
        _ => false,
    }
}

/// Some table among `vs` has a `hash`.
pub open spec fn any_hash(vs: Seq<TValue>) -> bool {
    exists|i: int| 0 <= i < vs.len() && tfield(#[trigger] vs[i], "hash"@) is Some
}

/// The marker that tells this format from a file merely named like it:
/// `marker` at the top, or `sub` inside it.
pub open spec fn marked(root: Seq<(Seq<char>, TValue)>, marker: Seq<char>, sub: Seq<char>) -> bool {
    match tget(root, marker) {
        Some(v) => sub.len() == 0 || tfield(v, sub) is Some,
        None => false,
    }
}

pub open spec fn marker_key(marker: Seq<char>, sub: Seq<char>) -> Seq<char> {
    if sub.len() == 0 {
        marker
    } else {
        marker + "."@ + sub
    }
}

pub open spec fn no_marker(path: Seq<char>, key: Seq<char>) -> Seq<char> {
    path + ": no `"@ + key + "`; this is not the lockfile its name claims to be"@
}

pub open spec fn nameless(path: Seq<char>, i: int) -> Seq<char> {
    path + ": `[[package]]` #"@ + text::decimal((i + 1) as nat) + " has no `name`"@
}

/// The `[[package]]` entries. A project with no dependencies has none, and
/// that is an empty file rather than a broken one.
pub open spec fn package_items(root: Seq<(Seq<char>, TValue)>) -> Seq<TValue> {
    match tget(root, "package"@) {
        Some(TValue::Array(items)) => items,
        _ => seq![],
    }
}

/// The first of the first `n` entries without a name.
pub open spec fn first_nameless(items: Seq<TValue>, n: int) -> Option<int>
    decreases n,
{
    if n <= 0 {
        None
    } else {
        match first_nameless(items, n - 1) {
            Some(x) => Some(x),
            None => if tstr(tfield(items[n - 1], "name"@)) is None {
                Some(n - 1)
            } else {
                None
            },
        }
    }
}

/// The first `n` entries called `name` once both names are normalised, in
/// order.
pub open spec fn named(items: Seq<TValue>, name: Seq<char>, n: int) -> Seq<usize>
    decreases n,
{
    if n <= 0 {
        seq![]
    } else {
        let prev = named(items, name, n - 1);
        if corpus::normalized(Ecosystem::PyPi, pname(items[n - 1])) == corpus::normalized(
            Ecosystem::PyPi,
            name,
        ) {
            prev.push((n - 1) as usize)
        } else {
            prev
        }
    }
}

/// Links from `from` to each of `tos`. A package is not evidence for itself,
/// and one this repository wrote links into `roots`.
pub open spec fn link_all(ours: bool, from: usize, tos: Seq<usize>) -> (Seq<(usize, usize)>, Seq<usize>)
    decreases tos.len(),
{
    if tos.len() == 0 {
        (seq![], seq![])
    } else {
        let (e, r) = link_all(ours, from, tos.drop_last());
        let to = tos.last();
        if to == from {
            (e, r)
        } else if ours {
            (e, r.push(to))
        } else {
            (e.push((from, to)), r)
        }
    }
}

/// poetry 2.x's `groups`, falling back to poetry 1.x's `category`: absent
/// groups mean an older file, not a dev-only package.
pub open spec fn is_dev(e: TValue) -> bool {
    match tfield(e, "groups"@) {
        Some(TValue::Array(gs)) => !gs.contains(TValue::Str("main"@)),
        _ => tstr(tfield(e, "category"@)) == Some("dev"@),
    }
}

/// One poetry entry. poetry writes `[package.source]` only for a package
/// that did not come from the default index.
pub open spec fn poetry_package(e: TValue) -> PackageView {
    PackageView {
        name: pname(e),
        version: pversion(e),
        key: pname(e),
        dev: is_dev(e),
        optional: tbool(tfield(e, "optional"@)) == Some(true),
        first_party: tstr(sub_field(tfield(e, "source"@), "type"@)) == Some("directory"@),
        install_script: false,
        has_integrity: match tfield(e, "files"@) {
            Some(TValue::Array(fs)) => any_hash(fs),
            _ => false,
        },
        pinned: PinView::Exact,
        origin: if tfield(e, "source"@) is None {
            Origin::Registry
        } else {
            Origin::Elsewhere
        },
    }
}

/// The keys of a table, in order.
pub open spec fn table_keys(v: Option<TValue>) -> Seq<Seq<char>> {
    match v {
        Some(TValue::Table(m)) => m.map_values(|x: (Seq<char>, TValue)| x.0),
        _ => seq![],
    }
}

/// The links of the dependency names `names` of entry `from`.
pub open spec fn poetry_dep_links(items: Seq<TValue>, ours: bool, from: usize, names: Seq<Seq<char>>) -> (
    Seq<(usize, usize)>,
    Seq<usize>,
)
    decreases names.len(),
{
    if names.len() == 0 {
        (seq![], seq![])
    } else {
        let (e, r) = poetry_dep_links(items, ours, from, names.drop_last());
        let (e2, r2) = link_all(ours, from, named(items, names.last(), items.len() as int));
        (e + e2, r + r2)
    }
}

/// The links of the first `n` entries: each entry's `dependencies` table is
/// keyed by the names it needs.
pub open spec fn poetry_links(items: Seq<TValue>, n: int) -> (Seq<(usize, usize)>, Seq<usize>)
    decreases n,
{
    if n <= 0 {
        (seq![], seq![])
    } else {
        let (e, r) = poetry_links(items, n - 1);
        let entry = items[n - 1];
        let (e2, r2) = poetry_dep_links(
            items,
            poetry_package(entry).first_party,
            (n - 1) as usize,
            table_keys(tfield(entry, "dependencies"@)),
        );
        (e + e2, r + r2)
    }
}

/// The tree a poetry.lock describes. An entry nothing depends on is taken
/// for one the root manifest asked for.
pub open spec fn poetry_tree(path: Seq<char>, items: Seq<TValue>, tree: Tree) -> bool {
    let pkgs = items.map_values(|e: TValue| poetry_package(e));
    let (edges, raw) = poetry_links(items, items.len() as int);
    &&& tree.ecosystem == Ecosystem::PyPi
    &&& tree.source@ == path
    &&& lock::package_views(tree.packages@) == pkgs
    &&& tree.edges@ == edges
    &&& forall|i: int, j: int| 0 <= i < j < tree.roots@.len() ==> tree.roots@[i] < tree.roots@[j]
    &&& forall|x: usize| #[trigger]
        tree.roots@.contains(x) <==> ((raw.contains(x) || lock::count_into(edges, x as int) == 0)
            && x < pkgs.len() && !pkgs[x as int].first_party)
    &&& tree.records_edges
    &&& !tree.records_install_scripts
}

/// What reading `src` as a poetry.lock at `path` gives.
pub open spec fn poetry_spec(path: Seq<char>, src: Seq<char>, r: Result<Tree>) -> bool {
    match toml::parse_spec(src) {
        Err((w, at)) => r matches Err(e) && json::syntax_at(toml::body(src), w, at, e),
        Ok(root) => if !marked(root, "metadata"@, "lock-version"@) {
            r matches Err(Error::Usage(m)) && m@ == no_marker(path, marker_key("metadata"@, "lock-version"@))
        } else {
            let items = package_items(root);
            match first_nameless(items, items.len() as int) {
                Some(i) => r matches Err(Error::Usage(m)) && m@ == nameless(path, i),
                None => r matches Ok(t) && poetry_tree(path, items, t),
            }
        },
    }
}

/// One uv entry. uv names the kind of source: `registry` is the index, and
/// `editable`, `virtual` and `directory` are the project's own.
pub open spec fn uv_package(e: TValue) -> PackageView {
    let src = tfield(e, "source"@);
    PackageView {
        name: pname(e),
        version: pversion(e),
        key: pname(e),
        dev: false,
        optional: false,
        first_party: has_member(src, "editable"@) || has_member(src, "virtual"@) || has_member(src, "directory"@),
        install_script: false,
        has_integrity: sub_field(tfield(e, "sdist"@), "hash"@) is Some || match tfield(e, "wheels"@) {
            Some(TValue::Array(ws)) => any_hash(ws),
            _ => false,
        },
        pinned: PinView::Exact,
        origin: if has_member(src, "registry"@) {
            Origin::Registry
        } else {
            Origin::Elsewhere
        },
    }
}

/// The arrays among a table's values, joined in key order.
pub open spec fn arrays_in(m: Seq<(Seq<char>, TValue)>) -> Seq<TValue>
    decreases m.len(),
{
    if m.len() == 0 {
        seq![]
    } else {
        arrays_in(m.drop_last()) + match m.last().1 {
            TValue::Array(vs) => vs,
            _ => seq![],
        }
    }
}

pub open spec fn grouped(e: TValue, f: Seq<char>) -> Seq<TValue> {
    match tfield(e, f) {
        Some(TValue::Table(m)) => arrays_in(m),
        _ => seq![],
    }
}

/// Every inline table in which a uv entry names another package:
/// `dependencies`, then the groups of `optional-dependencies` and of
/// `dev-dependencies`.
pub open spec fn uv_deps(e: TValue) -> Seq<TValue> {
    (match tfield(e, "dependencies"@) {
        Some(TValue::Array(vs)) => vs,
        _ => seq![],
    }) + grouped(e, "optional-dependencies"@) + grouped(e, "dev-dependencies"@)
}

/// The first of `c` whose version is `v`.
pub open spec fn first_version(items: Seq<TValue>, c: Seq<usize>, v: Seq<char>) -> Option<usize>
    decreases c.len(),
{
    if c.len() == 0 {
        None
    } else if first_version(items, c.drop_last(), v) is Some {
        first_version(items, c.drop_last(), v)
    } else if pversion(items[c.last() as int]) == v {
        Some(c.last())
    } else {
        None
    }
}

/// The entries a uv dependency points at. When uv forks one name on a marker
/// the dependency carries the version it meant; without one, or with one
/// that matches nothing, every candidate gets the edge, which can only
/// suppress a finding.
pub open spec fn uv_targets(items: Seq<TValue>, dep: TValue) -> Seq<usize> {
    match tstr(tfield(dep, "name"@)) {
        None => seq![],
        Some(nm) => {
            let c = named(items, nm, items.len() as int);
            match tstr(tfield(dep, "version"@)) {
                Some(v) => match first_version(items, c, v) {
                    Some(i) => seq![i],
                    None => c,
                },
                None => c,
            }
        },
    }
}

pub open spec fn uv_dep_links(items: Seq<TValue>, ours: bool, from: usize, deps: Seq<TValue>) -> (
    Seq<(usize, usize)>,
    Seq<usize>,
)
    decreases deps.len(),
{
    if deps.len() == 0 {
        (seq![], seq![])
    } else {
        let (e, r) = uv_dep_links(items, ours, from, deps.drop_last());
        let (e2, r2) = link_all(ours, from, uv_targets(items, deps.last()));
        (e + e2, r + r2)
    }
}

pub open spec fn uv_links(items: Seq<TValue>, n: int) -> (Seq<(usize, usize)>, Seq<usize>)
    decreases n,
{
    if n <= 0 {
        (seq![], seq![])
    } else {
        let (e, r) = uv_links(items, n - 1);
        let entry = items[n - 1];
        let (e2, r2) = uv_dep_links(items, uv_package(entry).first_party, (n - 1) as usize, uv_deps(entry));
        (e + e2, r + r2)
    }
}

/// The tree a uv.lock describes.
pub open spec fn uv_tree(path: Seq<char>, items: Seq<TValue>, tree: Tree) -> bool {
    let pkgs = items.map_values(|e: TValue| uv_package(e));
    let (edges, raw) = uv_links(items, items.len() as int);
    &&& tree.ecosystem == Ecosystem::PyPi
    &&& tree.source@ == path
    &&& lock::package_views(tree.packages@) == pkgs
    &&& tree.edges@ == edges
    &&& forall|i: int, j: int| 0 <= i < j < tree.roots@.len() ==> tree.roots@[i] < tree.roots@[j]
    &&& forall|x: usize| #[trigger]
        tree.roots@.contains(x) <==> (raw.contains(x) && x < pkgs.len() && !pkgs[x as int].first_party)
    &&& tree.records_edges
    &&& !tree.records_install_scripts
}

/// What reading `src` as a uv.lock at `path` gives.
pub open spec fn uv_spec(path: Seq<char>, src: Seq<char>, r: Result<Tree>) -> bool {
    match toml::parse_spec(src) {
        Err((w, at)) => r matches Err(e) && json::syntax_at(toml::body(src), w, at, e),
        Ok(root) => if !marked(root, "requires-python"@, ""@) {
            r matches Err(Error::Usage(m)) && m@ == no_marker(path, marker_key("requires-python"@, ""@))
        } else {
            let items = package_items(root);
            match first_nameless(items, items.len() as int) {
                Some(i) => r matches Err(Error::Usage(m)) && m@ == nameless(path, i),
                None => r matches Ok(t) && uv_tree(path, items, t),
            }
        },
    }
}

fn str_at(entry: &Value, k: &str) -> (r: Option<String>)
    ensures
        match tstr(tfield(toml::tview(*entry), k@)) {
            Some(s) => r matches Some(x) && x@ == s,
            None => r is None,
        },
{
    match entry.get(k) {
        Some(v) => match v.as_str() {
            Some(s) => Some(text::owned(s)),
            None => None,
        },
        None => None,
    }
}

/// Whether the member `f` of `entry` has a member `k`.
fn member_present(entry: &Value, f: &str, k: &str) -> (r: bool)
    ensures
        r == (sub_field(tfield(toml::tview(*entry), f@), k@) is Some),
        r == has_member(tfield(toml::tview(*entry), f@), k@),
{
    match entry.get(f) {
        Some(v) => v.get(k).is_some(),
        None => false,
    }
}

/// Whether the member `f` of `entry` is the string `want`.
fn str_is(entry: &Value, f: &str, want: &str) -> (r: bool)
    ensures
        r == (tstr(tfield(toml::tview(*entry), f@)) == Some(want@)),
{
    match str_at(entry, f) {
        Some(s) => text::same(s.as_str(), want),
        None => false,
    }
}

fn any_hash_of(vs: &Vec<Value>) -> (r: bool)
    ensures
        r == any_hash(toml::tviews(vs@)),
{
    let ghost tv = toml::tviews(vs@);
    for i in 0..vs.len()
        invariant
            tv == toml::tviews(vs@),
            forall|j: int| 0 <= j < i ==> tfield(#[trigger] tv[j], "hash"@) is None,
    {
        if vs[i].get("hash").is_some() {
            proof {
                assert(tv[i as int] == toml::tview(vs@[i as int]));
            }
            return true;
        }
    }
    false
}

/// Whether a table's `f` is an array holding a table with a `hash`.
fn hashed(entry: &Value, f: &str) -> (r: bool)
    ensures
        r == match tfield(toml::tview(*entry), f@) {
            Some(TValue::Array(fs)) => any_hash(fs),
            _ => false,
        },
{
    match entry.get(f) {
        Some(v) => match v {
            Value::Array(fs) => {
                proof {
                    toml::lemma_tview_array(*fs);
                }
                any_hash_of(fs)
            },
            _ => false,
        },
        None => false,
    }
}

fn dev_of(entry: &Value) -> (r: bool)
    ensures
        r == is_dev(toml::tview(*entry)),
{
    match entry.get("groups") {
        Some(v) => match v {
            Value::Array(gs) => {
                proof {
                    toml::lemma_tview_array(*gs);
                }
                let ghost tv = toml::tviews(gs@);
                for i in 0..gs.len()
                    invariant
                        tv == toml::tviews(gs@),
                        tfield(toml::tview(*entry), "groups"@) == Some(TValue::Array(tv)),
                        forall|j: int| 0 <= j < i ==> tv[j] != TValue::Str("main"@),
                {
                    proof {
                        assert(tv[i as int] == toml::tview(gs@[i as int]));
                    }
                    match &gs[i] {
                        Value::String(s) => {
                            if text::same(s.as_str(), "main") {
                                proof {
                                    assert(tv.contains(TValue::Str("main"@)));
                                }
                                return false;
                            }
                        },
                        _ => {},
                    }
                }
                true
            },
            _ => str_is(entry, "category", "dev"),
        },
        None => str_is(entry, "category", "dev"),
    }
}

fn poetry_package_of(entry: &Value) -> (p: Package)
    requires
        tstr(tfield(toml::tview(*entry), "name"@)) is Some,
    ensures
        p@ == poetry_package(toml::tview(*entry)),
{
    let name = match str_at(entry, "name") {
        Some(s) => s,
        None => String::new(),
    };
    let version = match str_at(entry, "version") {
        Some(s) => s,
        None => String::new(),
    };
    let directory = match entry.get("source") {
        Some(s) => str_is(s, "type", "directory"),
        None => false,
    };
    let optional = match entry.get("optional") {
        Some(v) => v.as_bool() == Some(true),
        None => false,
    };
    let key = name.clone();
    Package {
        name,
        version,
        key,
        dev: dev_of(entry),
        optional,
        first_party: directory,
        install_script: false,
        has_integrity: hashed(entry, "files"),
        pinned: Pin::Exact,
        origin: if entry.get("source").is_none() {
            Origin::Registry
        } else {
            Origin::Elsewhere
        },
    }
}

fn uv_package_of(entry: &Value) -> (p: Package)
    requires
        tstr(tfield(toml::tview(*entry), "name"@)) is Some,
    ensures
        p@ == uv_package(toml::tview(*entry)),
{
    let name = match str_at(entry, "name") {
        Some(s) => s,
        None => String::new(),
    };
    let version = match str_at(entry, "version") {
        Some(s) => s,
        None => String::new(),
    };
    let local = member_present(entry, "source", "editable") || member_present(entry, "source", "virtual")
        || member_present(entry, "source", "directory");
    let has_integrity = member_present(entry, "sdist", "hash") || hashed(entry, "wheels");
    let key = name.clone();
    Package {
        name,
        version,
        key,
        dev: false,
        optional: false,
        first_party: local,
        install_script: false,
        has_integrity,
        pinned: Pin::Exact,
        origin: if member_present(entry, "source", "registry") {
            Origin::Registry
        } else {
            Origin::Elsewhere
        },
    }
}

fn nameless_error(path: &str, i: usize) -> (e: Error)
    requires
        i < usize::MAX,
    ensures
        e matches Error::Usage(m) && m@ == nameless(path@, i as int),
{
    let mut m = text::owned(path);
    text::append(&mut m, ": `[[package]]` #");
    text::append(&mut m, text::decimal_of((i + 1) as u64).as_str());
    text::append(&mut m, " has no `name`");
    Error::usage(m.as_str())
}

/// Refuse a file that lacks the marker its format always writes.
fn check_marker(doc: &Value, path: &str, marker: &str, sub: &str) -> (r: Result<()>)
    requires
        toml::tview(*doc) is Table,
    ensures
        match toml::tview(*doc) {
            TValue::Table(root) => if marked(root, marker@, sub@) {
                r is Ok
            } else {
                r matches Err(Error::Usage(m)) && m@ == no_marker(path@, marker_key(marker@, sub@))
            },
            _ => false,
        },
{
    let plain = text::chars_of(sub).len() == 0;
    let found = match doc.get(marker) {
        Some(v) => plain || v.get(sub).is_some(),
        None => false,
    };
    if found {
        return Ok(());
    }
    let mut m = text::owned(path);
    text::append(&mut m, ": no `");
    text::append(&mut m, marker);
    if !plain {
        text::append(&mut m, ".");
        text::append(&mut m, sub);
    }
    text::append(&mut m, "`; this is not the lockfile its name claims to be");
    Err(Error::usage(m.as_str()))
}

/// Normalised names, one per entry taken in so far.
spec fn norms_of(norms: Seq<Vec<char>>, items: Seq<TValue>) -> bool {
    &&& norms.len() == items.len()
    &&& forall|i: int|
        0 <= i < items.len() ==> (#[trigger] norms[i])@ == corpus::normalized(
            Ecosystem::PyPi,
            pname(items[i]),
        )
}

/// Take in entry `i`, refusing it when it has no name.
fn take_entry(
    path: &str,
    entry: &Value,
    i: usize,
    uv: bool,
    packages: &mut Vec<Package>,
    norms: &mut Vec<Vec<char>>,
) -> (r: Result<()>)
    requires
        i < usize::MAX,
    ensures
        tstr(tfield(toml::tview(*entry), "name"@)) is None ==> (r matches Err(Error::Usage(m)) && m@
            == nameless(path@, i as int)),
        tstr(tfield(toml::tview(*entry), "name"@)) is Some ==> r is Ok,
        r is Ok ==> {
            &&& final(packages)@ == old(packages)@.push(final(packages)@.last())
            &&& final(packages)@.last()@ == if uv {
                uv_package(toml::tview(*entry))
            } else {
                poetry_package(toml::tview(*entry))
            }
            &&& final(norms)@ == old(norms)@.push(final(norms)@.last())
            &&& final(norms)@.last()@ == corpus::normalized(Ecosystem::PyPi, pname(toml::tview(*entry)))
        },
{
    let name = match str_at(entry, "name") {
        Some(s) => s,
        None => {
            return Err(nameless_error(path, i));
        },
    };
    let p = if uv {
        uv_package_of(entry)
    } else {
        poetry_package_of(entry)
    };
    packages.push(p);
    let n = corpus::normalize(Ecosystem::PyPi, name.as_str());
    norms.push(text::chars_of(n.as_str()));
    Ok(())
}

/// The entries called `name` once normalised, in order.
fn named_of(norms: &Vec<Vec<char>>, Ghost(items): Ghost<Seq<TValue>>, name: &str) -> (r: Vec<usize>)
    requires
        norms_of(norms@, items),
    ensures
        r@ == named(items, name@, items.len() as int),
{
    let key = text::chars_of(corpus::normalize(Ecosystem::PyPi, name).as_str());
    let mut r: Vec<usize> = Vec::new();
    for i in 0..norms.len()
        invariant
            norms_of(norms@, items),
            key@ == corpus::normalized(Ecosystem::PyPi, name@),
            r@ == named(items, name@, i as int),
    {
        if text::same_chars(&norms[i], &key) {
            r.push(i);
        }
    }
    r
}

/// Link `from` to each of `tos`.
fn link_each(ours: bool, from: usize, tos: &Vec<usize>, edges: &mut Vec<(usize, usize)>, roots: &mut Vec<usize>)
    ensures
        final(edges)@ == old(edges)@ + link_all(ours, from, tos@).0,
        final(roots)@ == old(roots)@ + link_all(ours, from, tos@).1,
{
    let ghost e0 = edges@;
    let ghost r0 = roots@;
    for k in 0..tos.len()
        invariant
            edges@ == e0 + link_all(ours, from, tos@.take(k as int)).0,
            roots@ == r0 + link_all(ours, from, tos@.take(k as int)).1,
    {
        proof {
            assert(tos@.take(k + 1).drop_last() =~= tos@.take(k as int));
        }
        let to = tos[k];
        if to != from {
            if ours {
                roots.push(to);
                proof {
                    assert(roots@ =~= r0 + link_all(ours, from, tos@.take(k + 1)).1);
                }
            } else {
                edges.push((from, to));
                proof {
                    assert(edges@ =~= e0 + link_all(ours, from, tos@.take(k + 1)).0);
                }
            }
        }
    }
    proof {
        assert(tos@.take(tos@.len() as int) =~= tos@);
    }
}

/// A package's view, by format.
pub open spec fn pkg_view(uv: bool, e: TValue) -> PackageView {
    if uv {
        uv_package(e)
    } else {
        poetry_package(e)
    }
}

proof fn lemma_first_nameless_stays(items: Seq<TValue>, a: int, b: int)
    requires
        0 <= a <= b,
        first_nameless(items, a) is Some,
    ensures
        first_nameless(items, b) == first_nameless(items, a),
    decreases b - a,
{
    if b > a {
        lemma_first_nameless_stays(items, a, b - 1);
    }
}

/// Every entry's package and normalised name, or the first entry without a
/// name.
fn take_all(path: &str, items: &[Value], uv: bool) -> (r: Result<(Vec<Package>, Vec<Vec<char>>)>)
    ensures
        match first_nameless(toml::tviews(items@), items@.len() as int) {
            Some(i) => r matches Err(Error::Usage(m)) && m@ == nameless(path@, i),
            None => r matches Ok((ps, ns)) && lock::package_views(ps@) == toml::tviews(items@).map_values(
                |e: TValue| pkg_view(uv, e),
            ) && norms_of(ns@, toml::tviews(items@)),
        },
{
    let ghost tv = toml::tviews(items@);
    let n = items.len();
    let mut packages: Vec<Package> = Vec::new();
    let mut norms: Vec<Vec<char>> = Vec::new();
    proof {
        assert(lock::package_views(packages@) =~= tv.take(0).map_values(|e: TValue| pkg_view(uv, e)));
    }
    for i in 0..n
        invariant
            n == items@.len(),
            tv == toml::tviews(items@),
            first_nameless(tv, i as int) is None,
            lock::package_views(packages@) == tv.take(i as int).map_values(|e: TValue| pkg_view(uv, e)),
            norms_of(norms@, tv.take(i as int)),
    {
        let entry = &items[i];
        proof {
            assert(tv[i as int] == toml::tview(*entry));
        }
        let ghost pb = packages@;
        let ghost nb = norms@;
        match take_entry(path, entry, i, uv, &mut packages, &mut norms) {
            Ok(()) => {},
            Err(e) => {
                proof {
                    assert(first_nameless(tv, i + 1) == Some(i as int));
                    lemma_first_nameless_stays(tv, i + 1, tv.len() as int);
                }
                return Err(e);
            },
        }
        proof {
            let t1 = tv.take(i + 1);
            assert(t1 =~= tv.take(i as int).push(tv[i as int]));
            assert(lock::package_views(packages@) =~= lock::package_views(pb).push(packages@.last()@));
            assert(t1.map_values(|e: TValue| pkg_view(uv, e)) =~= tv.take(i as int).map_values(
                |e: TValue| pkg_view(uv, e),
            ).push(pkg_view(uv, tv[i as int])));
            assert forall|k: int| 0 <= k < t1.len() implies (#[trigger] norms@[k])@ == corpus::normalized(
                Ecosystem::PyPi,
                pname(t1[k]),
            ) by {
                if k < i {
                    assert(norms@[k] == nb[k]);
                }
            }
        }
    }
    proof {
        assert(tv.take(n as int) =~= tv);
    }
    Ok((packages, norms))
}

/// The entries named by each key of entry `from`'s `dependencies` table.
fn poetry_entry_links(
    norms: &Vec<Vec<char>>,
    Ghost(items): Ghost<Seq<TValue>>,
    ours: bool,
    from: usize,
    entry: &Value,
    edges: &mut Vec<(usize, usize)>,
    roots: &mut Vec<usize>,
)
    requires
        norms_of(norms@, items),
    ensures
        final(edges)@ == old(edges)@ + poetry_dep_links(
            items,
            ours,
            from,
            table_keys(tfield(toml::tview(*entry), "dependencies"@)),
        ).0,
        final(roots)@ == old(roots)@ + poetry_dep_links(
            items,
            ours,
            from,
            table_keys(tfield(toml::tview(*entry), "dependencies"@)),
        ).1,
{
    let ghost e0 = edges@;
    let ghost r0 = roots@;
    let ghost keys = table_keys(tfield(toml::tview(*entry), "dependencies"@));
    match entry.get("dependencies") {
        Some(v) => match v {
            Value::Table(m) => {
                proof {
                    toml::lemma_tview_table(*m);
                    assert forall|j: int| 0 <= j < m@.len() implies keys[j] == (#[trigger] m@[j]).0@ by {}
                    assert(edges@ =~= e0 + poetry_dep_links(items, ours, from, keys.take(0)).0);
                    assert(roots@ =~= r0 + poetry_dep_links(items, ours, from, keys.take(0)).1);
                }
                for k in 0..m.len()
                    invariant
                        norms_of(norms@, items),
                        keys.len() == m@.len(),
                        forall|j: int| 0 <= j < m@.len() ==> keys[j] == (#[trigger] m@[j]).0@,
                        edges@ == e0 + poetry_dep_links(items, ours, from, keys.take(k as int)).0,
                        roots@ == r0 + poetry_dep_links(items, ours, from, keys.take(k as int)).1,
                {
                    proof {
                        assert(keys.take(k + 1).drop_last() =~= keys.take(k as int));
                        assert(keys.take(k + 1).last() == m@[k as int].0@);
                    }
                    let tos = named_of(norms, Ghost(items), m[k].0.as_str());
                    let ghost eb = edges@;
                    let ghost rb = roots@;
                    link_each(ours, from, &tos, edges, roots);
                    proof {
                        let (e1, r1) = poetry_dep_links(items, ours, from, keys.take(k as int));
                        let (e2, r2) = link_all(ours, from, tos@);
                        assert(edges@ =~= e0 + (e1 + e2));
                        assert(roots@ =~= r0 + (r1 + r2));
                    }
                }
                proof {
                    assert(keys.take(m@.len() as int) =~= keys);
                }
            },
            _ => {
                proof {
                    assert(keys =~= seq![]);
                    assert(edges@ =~= e0 + seq![]);
                    assert(roots@ =~= r0 + seq![]);
                }
            },
        },
        None => {
            proof {
                assert(keys =~= seq![]);
                assert(edges@ =~= e0 + seq![]);
                assert(roots@ =~= r0 + seq![]);
            }
        },
    }
}

proof fn lemma_first_version_stays(items: Seq<TValue>, c: Seq<usize>, v: Seq<char>, a: int, b: int)
    requires
        0 <= a <= b <= c.len(),
        first_version(items, c.take(a), v) is Some,
    ensures
        first_version(items, c.take(b), v) == first_version(items, c.take(a), v),
    decreases b - a,
{
    if b > a {
        lemma_first_version_stays(items, c, v, a, b - 1);
        assert(c.take(b).drop_last() =~= c.take(b - 1));
    }
}

/// The first of `c` whose version is `v`.
fn first_version_of(
    packages: &Vec<Package>,
    Ghost(items): Ghost<Seq<TValue>>,
    c: &Vec<usize>,
    v: &str,
) -> (r: Option<usize>)
    requires
        packages@.len() == items.len(),
        forall|i: int| 0 <= i < items.len() ==> (#[trigger] packages@[i]).version@ == pversion(items[i]),
        forall|j: int| 0 <= j < c@.len() ==> #[trigger] c@[j] < items.len(),
    ensures
        r == first_version(items, c@, v@),
{
    for k in 0..c.len()
        invariant
            packages@.len() == items.len(),
            forall|i: int| 0 <= i < items.len() ==> (#[trigger] packages@[i]).version@ == pversion(items[i]),
            forall|j: int| 0 <= j < c@.len() ==> #[trigger] c@[j] < items.len(),
            first_version(items, c@.take(k as int), v@) is None,
    {
        proof {
            assert(c@.take(k + 1).drop_last() =~= c@.take(k as int));
            assert(c@[k as int] < items.len());
        }
        let i = c[k];
        if text::same(packages[i].version.as_str(), v) {
            proof {
                assert(first_version(items, c@.take(k + 1), v@) == Some(i));
                lemma_first_version_stays(items, c@, v@, k + 1, c@.len() as int);
                assert(c@.take(c@.len() as int) =~= c@);
            }
            return Some(i);
        }
    }
    proof {
        assert(c@.take(c@.len() as int) =~= c@);
    }
    None
}

proof fn lemma_named_bound(items: Seq<TValue>, name: Seq<char>, n: int)
    requires
        0 <= n <= items.len(),
        items.len() <= usize::MAX,
    ensures
        forall|j: int| 0 <= j < named(items, name, n).len() ==> #[trigger] named(items, name, n)[j] < n,
    decreases n,
{
    if n > 0 {
        lemma_named_bound(items, name, n - 1);
        let prev = named(items, name, n - 1);
        let now = named(items, name, n);
        assert forall|j: int| 0 <= j < now.len() implies #[trigger] now[j] < n by {
            if j < prev.len() {
                assert(now[j] == prev[j]);
            } else {
                assert(now[j] == (n - 1) as usize);
            }
        }
    }
}

/// The entries one uv dependency points at, linked from `from`.
fn uv_one(
    norms: &Vec<Vec<char>>,
    packages: &Vec<Package>,
    Ghost(items): Ghost<Seq<TValue>>,
    ours: bool,
    from: usize,
    dep: &Value,
    edges: &mut Vec<(usize, usize)>,
    roots: &mut Vec<usize>,
)
    requires
        norms_of(norms@, items),
        packages@.len() == items.len(),
        forall|i: int| 0 <= i < items.len() ==> (#[trigger] packages@[i]).version@ == pversion(items[i]),
    ensures
        final(edges)@ == old(edges)@ + link_all(ours, from, uv_targets(items, toml::tview(*dep))).0,
        final(roots)@ == old(roots)@ + link_all(ours, from, uv_targets(items, toml::tview(*dep))).1,
{
    let name = match str_at(dep, "name") {
        Some(s) => s,
        None => {
            proof {
                assert(edges@ =~= edges@ + seq![]);
                assert(roots@ =~= roots@ + seq![]);
            }
            return;
        },
    };
    let c = named_of(norms, Ghost(items), name.as_str());
    let n = packages.len();
    proof {
        lemma_named_bound(items, name@, items.len() as int);
    }
    let targets = match str_at(dep, "version") {
        Some(v) => match first_version_of(packages, Ghost(items), &c, v.as_str()) {
            Some(i) => {
                let mut t: Vec<usize> = Vec::new();
                t.push(i);
                proof {
                    assert(t@ =~= seq![i]);
                }
                t
            },
            None => c,
        },
        None => c,
    };
    link_each(ours, from, &targets, edges, roots);
}

/// `e0`/`r0` plus the links of `done`, and then of `deps`.
fn uv_list(
    norms: &Vec<Vec<char>>,
    packages: &Vec<Package>,
    Ghost(items): Ghost<Seq<TValue>>,
    ours: bool,
    from: usize,
    deps: &Vec<Value>,
    Ghost(done): Ghost<Seq<TValue>>,
    Ghost(e0): Ghost<Seq<(usize, usize)>>,
    Ghost(r0): Ghost<Seq<usize>>,
    edges: &mut Vec<(usize, usize)>,
    roots: &mut Vec<usize>,
)
    requires
        norms_of(norms@, items),
        packages@.len() == items.len(),
        forall|i: int| 0 <= i < items.len() ==> (#[trigger] packages@[i]).version@ == pversion(items[i]),
        old(edges)@ == e0 + uv_dep_links(items, ours, from, done).0,
        old(roots)@ == r0 + uv_dep_links(items, ours, from, done).1,
    ensures
        final(edges)@ == e0 + uv_dep_links(items, ours, from, done + toml::tviews(deps@)).0,
        final(roots)@ == r0 + uv_dep_links(items, ours, from, done + toml::tviews(deps@)).1,
{
    let ghost tv = toml::tviews(deps@);
    proof {
        assert(done + tv.take(0) =~= done);
    }
    for k in 0..deps.len()
        invariant
            norms_of(norms@, items),
            packages@.len() == items.len(),
            forall|i: int| 0 <= i < items.len() ==> (#[trigger] packages@[i]).version@ == pversion(items[i]),
            tv == toml::tviews(deps@),
            edges@ == e0 + uv_dep_links(items, ours, from, done + tv.take(k as int)).0,
            roots@ == r0 + uv_dep_links(items, ours, from, done + tv.take(k as int)).1,
    {
        let ghost before = done + tv.take(k as int);
        proof {
            assert((done + tv.take(k + 1)).drop_last() =~= before);
            assert((done + tv.take(k + 1)).last() == toml::tview(deps@[k as int]));
        }
        uv_one(norms, packages, Ghost(items), ours, from, &deps[k], edges, roots);
        proof {
            let (e1, r1) = uv_dep_links(items, ours, from, before);
            let (e2, r2) = link_all(ours, from, uv_targets(items, toml::tview(deps@[k as int])));
            assert(edges@ =~= e0 + (e1 + e2));
            assert(roots@ =~= r0 + (r1 + r2));
        }
    }
    proof {
        assert(tv.take(deps@.len() as int) =~= tv);
    }
}

/// The links of the arrays under the groups of `f`, after `done`.
fn uv_group(
    norms: &Vec<Vec<char>>,
    packages: &Vec<Package>,
    Ghost(items): Ghost<Seq<TValue>>,
    ours: bool,
    from: usize,
    entry: &Value,
    f: &str,
    Ghost(done): Ghost<Seq<TValue>>,
    Ghost(e0): Ghost<Seq<(usize, usize)>>,
    Ghost(r0): Ghost<Seq<usize>>,
    edges: &mut Vec<(usize, usize)>,
    roots: &mut Vec<usize>,
)
    requires
        norms_of(norms@, items),
        packages@.len() == items.len(),
        forall|i: int| 0 <= i < items.len() ==> (#[trigger] packages@[i]).version@ == pversion(items[i]),
        old(edges)@ == e0 + uv_dep_links(items, ours, from, done).0,
        old(roots)@ == r0 + uv_dep_links(items, ours, from, done).1,
    ensures
        final(edges)@ == e0 + uv_dep_links(items, ours, from, done + grouped(toml::tview(*entry), f@)).0,
        final(roots)@ == r0 + uv_dep_links(items, ours, from, done + grouped(toml::tview(*entry), f@)).1,
{
    match entry.get(f) {
        Some(v) => match v {
            Value::Table(m) => {
                proof {
                    toml::lemma_tview_table(*m);
                }
                let ghost mv = toml::entries_view(m@);
                proof {
                    assert(done + arrays_in(mv.take(0)) =~= done);
                }
                for k in 0..m.len()
                    invariant
                        norms_of(norms@, items),
                        packages@.len() == items.len(),
                        forall|i: int|
                            0 <= i < items.len() ==> (#[trigger] packages@[i]).version@ == pversion(items[i]),
                        mv == toml::entries_view(m@),
                        edges@ == e0 + uv_dep_links(items, ours, from, done + arrays_in(mv.take(k as int))).0,
                        roots@ == r0 + uv_dep_links(items, ours, from, done + arrays_in(mv.take(k as int))).1,
                {
                    proof {
                        assert(mv.take(k + 1).drop_last() =~= mv.take(k as int));
                        assert(mv.take(k + 1).last() == (m@[k as int].0@, toml::tview(m@[k as int].1)));
                    }
                    match &m[k].1 {
                        Value::Array(vs) => {
                            proof {
                                toml::lemma_tview_array(*vs);
                            }
                            uv_list(
                                norms,
                                packages,
                                Ghost(items),
                                ours,
                                from,
                                vs,
                                Ghost(done + arrays_in(mv.take(k as int))),
                                Ghost(e0),
                                Ghost(r0),
                                edges,
                                roots,
                            );
                            proof {
                                assert(done + arrays_in(mv.take(k as int)) + toml::tviews(vs@) =~= done
                                    + arrays_in(mv.take(k + 1)));
                            }
                        },
                        _ => {
                            proof {
                                assert(done + arrays_in(mv.take(k as int)) =~= done + arrays_in(mv.take(k + 1)));
                            }
                        },
                    }
                }
                proof {
                    assert(mv.take(m@.len() as int) =~= mv);
                }
            },
            _ => {
                proof {
                    assert(done + grouped(toml::tview(*entry), f@) =~= done);
                }
            },
        },
        None => {
            proof {
                assert(done + grouped(toml::tview(*entry), f@) =~= done);
            }
        },
    }
}

/// The links of every dependency a uv entry lists.
fn uv_entry_links(
    norms: &Vec<Vec<char>>,
    packages: &Vec<Package>,
    Ghost(items): Ghost<Seq<TValue>>,
    ours: bool,
    from: usize,
    entry: &Value,
    edges: &mut Vec<(usize, usize)>,
    roots: &mut Vec<usize>,
)
    requires
        norms_of(norms@, items),
        packages@.len() == items.len(),
        forall|i: int| 0 <= i < items.len() ==> (#[trigger] packages@[i]).version@ == pversion(items[i]),
    ensures
        final(edges)@ == old(edges)@ + uv_dep_links(items, ours, from, uv_deps(toml::tview(*entry))).0,
        final(roots)@ == old(roots)@ + uv_dep_links(items, ours, from, uv_deps(toml::tview(*entry))).1,
{
    let ghost e0 = edges@;
    let ghost r0 = roots@;
    let ghost ev = toml::tview(*entry);
    let ghost direct = match tfield(ev, "dependencies"@) {
        Some(TValue::Array(vs)) => vs,
        _ => seq![],
    };
    proof {
        assert(edges@ =~= e0 + uv_dep_links(items, ours, from, seq![]).0);
        assert(roots@ =~= r0 + uv_dep_links(items, ours, from, seq![]).1);
    }
    match entry.get("dependencies") {
        Some(v) => match v {
            Value::Array(vs) => {
                proof {
                    toml::lemma_tview_array(*vs);
                }
                uv_list(
                    norms,
                    packages,
                    Ghost(items),
                    ours,
                    from,
                    vs,
                    Ghost(Seq::<TValue>::empty()),
                    Ghost(e0),
                    Ghost(r0),
                    edges,
                    roots,
                );
                proof {
                    assert(seq![] + toml::tviews(vs@) =~= direct);
                }
            },
            _ => {},
        },
        None => {},
    }
    uv_group(
        norms,
        packages,
        Ghost(items),
        ours,
        from,
        entry,
        "optional-dependencies",
        Ghost(direct),
        Ghost(e0),
        Ghost(r0),
        edges,
        roots,
    );
    uv_group(
        norms,
        packages,
        Ghost(items),
        ours,
        from,
        entry,
        "dev-dependencies",
        Ghost(direct + grouped(ev, "optional-dependencies"@)),
        Ghost(e0),
        Ghost(r0),
        edges,
        roots,
    );
    proof {
        assert(e0 == old(edges)@);
    }
}

/// Every index below `n` that no edge points at, appended to `raw`.
fn zero_in(edges: &Vec<(usize, usize)>, n: usize, raw: &mut Vec<usize>)
    ensures
        forall|x: usize| #[trigger]
            final(raw)@.contains(x) <==> (old(raw)@.contains(x) || (x < n && lock::count_into(edges@, x as int)
                == 0)),
{
    let mut deg: Vec<usize> = Vec::new();
    for i in 0..n
        invariant
            deg@.len() == i,
            forall|x: int| 0 <= x < i ==> #[trigger] deg@[x] == 0,
    {
        deg.push(0);
    }
    let m = edges.len();
    for e in 0..m
        invariant
            m == edges@.len(),
            deg@.len() == n,
            forall|x: int| 0 <= x < n ==> #[trigger] deg@[x] == lock::count_into(edges@.take(e as int), x),
            forall|x: int| 0 <= x < n ==> #[trigger] deg@[x] <= e,
    {
        proof {
            assert(edges@.take(e + 1).drop_last() =~= edges@.take(e as int));
        }
        let to = edges[e].1;
        if to < n {
            let cur = deg[to];
            deg.set(to, cur + 1);
        }
    }
    proof {
        assert(edges@.take(m as int) =~= edges@);
    }
    let ghost r0 = raw@;
    for x in 0..n
        invariant
            deg@.len() == n,
            forall|y: int| 0 <= y < n ==> #[trigger] deg@[y] == lock::count_into(edges@, y),
            forall|y: usize| #[trigger]
                raw@.contains(y) <==> (r0.contains(y) || (y < x && lock::count_into(edges@, y as int) == 0)),
    {
        if deg[x] == 0 {
            let ghost rb = raw@;
            raw.push(x);
            proof {
                assert forall|y: usize| #[trigger] raw@.contains(y) <==> (r0.contains(y) || (y < x + 1
                    && lock::count_into(edges@, y as int) == 0)) by {
                    if raw@.contains(y) && y != x {
                        let q = choose|q: int| 0 <= q < raw@.len() && raw@[q] == y;
                        assert(rb[q] == y);
                        assert(rb.contains(y));
                    }
                    if rb.contains(y) {
                        let q = choose|q: int| 0 <= q < rb.len() && rb[q] == y;
                        assert(raw@[q] == y);
                    }
                    if y == x {
                        assert(raw@[rb.len() as int] == x);
                    }
                }
            }
        }
    }
}

/// The `[[package]]` entries of a document, or `none` when it lists none.
fn items_of<'a>(doc: &'a Value, none: &'a Vec<Value>) -> (r: &'a [Value])
    requires
        none@.len() == 0,
    ensures
        match toml::tview(*doc) {
            TValue::Table(root) => toml::tviews(r@) == package_items(root),
            _ => true,
        },
{
    proof {
        assert(toml::tviews(none@) =~= seq![]);
    }
    match doc.get("package") {
        Some(v) => match v.as_array() {
            Some(a) => {
                proof {
                    match v {
                        Value::Array(it) => toml::lemma_tview_array(*it),
                        _ => {},
                    }
                }
                a
            },
            None => none.as_slice(),
        },
        None => none.as_slice(),
    }
}

/// Read a poetry.lock.
pub fn poetry(path: &str, src: &str) -> (r: Result<Tree>)
    requires
        src@.len() < u32::MAX,
    ensures
        poetry_spec(path@, src@, r),
{
    let doc = toml::parse(src)?;
    check_marker(&doc, path, "metadata", "lock-version")?;
    let none: Vec<Value> = Vec::new();
    let items = items_of(&doc, &none);
    let ghost tv = toml::tviews(items@);
    let (packages, norms) = take_all(path, items, false)?;
    let ghost pkgs = tv.map_values(|e: TValue| poetry_package(e));
    proof {
        assert(lock::package_views(packages@) =~= pkgs);
    }
    let n = items.len();
    let mut edges: Vec<(usize, usize)> = Vec::new();
    let mut raw: Vec<usize> = Vec::new();
    for from in 0..n
        invariant
            n == items@.len(),
            tv == toml::tviews(items@),
            norms_of(norms@, tv),
            packages@.len() == n,
            lock::package_views(packages@) == pkgs,
            pkgs == tv.map_values(|e: TValue| poetry_package(e)),
            (edges@, raw@) == poetry_links(tv, from as int),
    {
        proof {
            assert(tv[from as int] == toml::tview(items@[from as int]));
            assert(lock::package_views(packages@)[from as int] == pkgs[from as int]);
        }
        poetry_entry_links(&norms, Ghost(tv), packages[from].first_party, from, &items[from], &mut edges, &mut raw);
        proof {
            assert(edges@ =~= poetry_links(tv, from + 1).0);
            assert(raw@ =~= poetry_links(tv, from + 1).1);
        }
    }
    let ghost linked = raw@;
    zero_in(&edges, n, &mut raw);
    let roots = lock::keep_roots(&raw, &packages);
    let t = Tree {
        ecosystem: Ecosystem::PyPi,
        source: text::owned(path),
        packages,
        edges,
        roots,
        records_edges: true,
        records_install_scripts: false,
    };
    proof {
        assert forall|x: usize| #[trigger] t.roots@.contains(x) <==> ((linked.contains(x)
            || lock::count_into(t.edges@, x as int) == 0) && x < pkgs.len() && !pkgs[x as int].first_party) by {
            if x < pkgs.len() {
                assert(lock::package_views(t.packages@)[x as int] == pkgs[x as int]);
            }
        }
    }
    Ok(t)
}

/// Read a uv.lock.
pub fn uv(path: &str, src: &str) -> (r: Result<Tree>)
    requires
        src@.len() < u32::MAX,
    ensures
        uv_spec(path@, src@, r),
{
    let doc = toml::parse(src)?;
    check_marker(&doc, path, "requires-python", "")?;
    let none: Vec<Value> = Vec::new();
    let items = items_of(&doc, &none);
    let ghost tv = toml::tviews(items@);
    let (packages, norms) = take_all(path, items, true)?;
    let ghost pkgs = tv.map_values(|e: TValue| uv_package(e));
    proof {
        assert(lock::package_views(packages@) =~= pkgs);
        assert forall|i: int| 0 <= i < tv.len() implies (#[trigger] packages@[i]).version@ == pversion(tv[i]) by {
            assert(lock::package_views(packages@)[i] == pkgs[i]);
        }
    }
    let n = items.len();
    let mut edges: Vec<(usize, usize)> = Vec::new();
    let mut raw: Vec<usize> = Vec::new();
    for from in 0..n
        invariant
            n == items@.len(),
            tv == toml::tviews(items@),
            norms_of(norms@, tv),
            packages@.len() == n,
            forall|i: int| 0 <= i < tv.len() ==> (#[trigger] packages@[i]).version@ == pversion(tv[i]),
            lock::package_views(packages@) == pkgs,
            pkgs == tv.map_values(|e: TValue| uv_package(e)),
            (edges@, raw@) == uv_links(tv, from as int),
    {
        proof {
            assert(tv[from as int] == toml::tview(items@[from as int]));
            assert(lock::package_views(packages@)[from as int] == pkgs[from as int]);
        }
        uv_entry_links(
            &norms,
            &packages,
            Ghost(tv),
            packages[from].first_party,
            from,
            &items[from],
            &mut edges,
            &mut raw,
        );
        proof {
            assert(edges@ =~= uv_links(tv, from + 1).0);
            assert(raw@ =~= uv_links(tv, from + 1).1);
        }
    }
    let roots = lock::keep_roots(&raw, &packages);
    let t = Tree {
        ecosystem: Ecosystem::PyPi,
        source: text::owned(path),
        packages,
        edges,
        roots,
        records_edges: true,
        records_install_scripts: false,
    };
    proof {
        assert forall|x: usize| #[trigger] t.roots@.contains(x) <==> (raw@.contains(x) && x < pkgs.len()
            && !pkgs[x as int].first_party) by {
            if x < pkgs.len() {
                assert(lock::package_views(t.packages@)[x as int] == pkgs[x as int]);
            }
        }
    }
    Ok(t)
}

} // verus!
