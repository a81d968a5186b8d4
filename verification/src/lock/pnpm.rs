//! pnpm-lock.yaml, lockfileVersion 9 and 6.
//!
//! `importers` holds the project's own manifests, `packages` the distinct
//! tarballs keyed `name@version`, and `snapshots` the installed instances,
//! keyed with a parenthesised peer suffix, carrying the resolved edges.
//!
//! Version 6 fuses `packages` and `snapshots`, starts its keys with `/`, and
//! for a single project writes the manifest at the top level instead of
//! under `importers`. It also records `dev` and `requiresBuild` per entry,
//! which version 9 dropped: install scripts are recorded in a version 6 file
//! only. A version 6 `file:` entry is the project's own package, named by its
//! `name` field.
//!
//! Both ends of every edge are cut at the first `(` before lookup, and a key
//! splits at its last `@`, so a scoped name keeps its scope.
use crate::error::{Error, Result};
use crate::lock::{self, Ecosystem, Origin, Package, PackageView, Pin, PinView, Tree};
use crate::lock::npm;
use crate::text;
use crate::toml;
use crate::yaml::{self, yget, Value, YValue};
use vstd::prelude::*;

verus! {

pub open spec fn yfield(v: YValue, k: Seq<char>) -> Option<YValue> {
    match v {
        YValue::Dict(m) => yget(m, k),
        _ => None,
    }
}

pub open spec fn ystr(v: Option<YValue>) -> Option<Seq<char>> {
    match v {
        Some(YValue::Str(s)) => Some(s),
        _ => None,
    }
}

pub open spec fn ybool(v: Option<YValue>) -> Option<bool> {
    match v {
        Some(YValue::Bool(b)) => Some(b),
        _ => None,
    }
}

pub open spec fn ydict(v: Option<YValue>) -> Option<Seq<(Seq<char>, YValue)>> {
    match v {
        Some(YValue::Dict(m)) => Some(m),
        _ => None,
    }
}

/// The member `k` of the optional value `v`.
pub open spec fn ysub(v: Option<YValue>, k: Seq<char>) -> Option<YValue> {
    match v {
        Some(x) => yfield(x, k),
        None => None,
    }
}

/// The part of a version before its first `.`.
pub open spec fn major_part(v: Seq<char>) -> Seq<char> {
    if text::find(v, '.') >= 0 {
        v.take(text::find(v, '.'))
    } else {
        v
    }
}

/// The bare `name@version` both versions agree on: no leading `/`, and no
/// peer suffix.
pub open spec fn base_of(key: Seq<char>) -> Seq<char> {
    let k = if key.len() > 0 && key[0] == '/' {
        key.skip(1)
    } else {
        key
    };
    if text::find(k, '(') >= 0 {
        k.take(text::find(k, '('))
    } else {
        k
    }
}

/// `name@version` split at the last `@`; a key with none after its first
/// character is all name.
pub open spec fn split_key(key: Seq<char>) -> (Seq<char>, Seq<char>) {
    let i = npm::rfind(key, seq!['@']);
    if i > 0 {
        (key.take(i), key.skip(i + 1))
    } else {
        (key, seq![])
    }
}

/// The `packages` key a dependency's version points at: a `file:` or `link:`
/// version is a path, keyed by itself.
pub open spec fn key_for(name: Seq<char>, version: Seq<char>) -> Seq<char> {
    if "file:"@.is_prefix_of(version) || "link:"@.is_prefix_of(version) {
        version
    } else {
        name + "@"@ + version
    }
}

/// A package that is a directory on this disk.
pub open spec fn is_directory(entry: YValue) -> bool {
    ystr(ysub(yfield(entry, "resolution"@), "type"@)) == Some("directory"@)
}

/// Where the tarball came from: a plain `{integrity}` resolution is the
/// registry, and a tarball, a repository, a commit or a directory is not.
pub open spec fn origin_of(entry: YValue) -> Origin {
    match ydict(yfield(entry, "resolution"@)) {
        None => Origin::Elsewhere,
        Some(res) => {
            let off = yget(res, "tarball"@) is Some || yget(res, "repo"@) is Some || yget(res, "commit"@) is Some
                || yget(res, "directory"@) is Some || yget(res, "type"@) is Some;
            if yget(res, "integrity"@) is Some && !off {
                Origin::Registry
            } else {
                Origin::Elsewhere
            }
        },
    }
}

/// The entries of `packages` whose base has not been seen before them.
pub open spec fn firsts(es: Seq<(Seq<char>, YValue)>) -> Seq<(Seq<char>, YValue)>
    decreases es.len(),
{
    if es.len() == 0 {
        seq![]
    } else {
        let f = firsts(es.drop_last());
        if bases(f).contains(base_of(es.last().0)) {
            f
        } else {
            f.push(es.last())
        }
    }
}

pub open spec fn bases(es: Seq<(Seq<char>, YValue)>) -> Seq<Seq<char>> {
    es.map_values(|e: (Seq<char>, YValue)| base_of(e.0))
}

/// One `packages` entry as a package, `optional` as the snapshots say.
pub open spec fn pnpm_package(key: Seq<char>, entry: YValue, optional: bool) -> PackageView {
    let base = base_of(key);
    let (n, v) = split_key(base);
    PackageView {
        name: match ystr(yfield(entry, "name"@)) {
            Some(d) => d,
            None => n,
        },
        version: v,
        key: base,
        dev: ybool(yfield(entry, "dev"@)) == Some(true),
        optional,
        first_party: is_directory(entry),
        install_script: ybool(yfield(entry, "requiresBuild"@)) == Some(true),
        has_integrity: ysub(yfield(entry, "resolution"@), "integrity"@) is Some,
        pinned: PinView::Exact,
        origin: origin_of(entry),
    }
}

/// Some snapshot of package `i` is marked optional.
pub open spec fn optional_at(snaps: Seq<(Seq<char>, YValue)>, keys: Seq<Seq<char>>, i: int) -> bool {
    exists|j: int|
        0 <= j < snaps.len() && npm::index_in(keys, base_of(#[trigger] snaps[j].0)) == Some(i as usize)
            && ybool(yfield(snaps[j].1, "optional"@)) == Some(true)
}

/// The (name, version) pairs of the mappings under `fields` of `v`, with a
/// version read by `version_of`.
pub open spec fn pairs_in(m: Seq<(Seq<char>, YValue)>, from_entry: bool) -> Seq<(Seq<char>, Seq<char>)>
    decreases m.len(),
{
    if m.len() == 0 {
        seq![]
    } else {
        let prev = pairs_in(m.drop_last(), from_entry);
        let v = if from_entry {
            ystr(yfield(m.last().1, "version"@))
        } else {
            ystr(Some(m.last().1))
        };
        match v {
            Some(x) => prev.push((m.last().0, x)),
            None => prev,
        }
    }
}

pub open spec fn pairs_under(v: YValue, f: Seq<char>, from_entry: bool) -> Seq<(Seq<char>, Seq<char>)> {
    match ydict(yfield(v, f)) {
        Some(m) => pairs_in(m, from_entry),
        None => seq![],
    }
}

/// A snapshot's resolved edges: name to the version that identifies the
/// snapshot it points at.
pub open spec fn resolved_deps(snap: YValue) -> Seq<(Seq<char>, Seq<char>)> {
    pairs_under(snap, "dependencies"@, false) + pairs_under(snap, "optionalDependencies"@, false)
}

/// An importer's dependencies, by the version that was installed.
pub open spec fn declared_deps(importer: YValue) -> Seq<(Seq<char>, Seq<char>)> {
    pairs_under(importer, "dependencies"@, true) + pairs_under(importer, "devDependencies"@, true)
        + pairs_under(importer, "optionalDependencies"@, true)
}

/// The packages the pairs point at, in order, the ones that exist.
pub open spec fn targets(keys: Seq<Seq<char>>, deps: Seq<(Seq<char>, Seq<char>)>) -> Seq<usize>
    decreases deps.len(),
{
    if deps.len() == 0 {
        seq![]
    } else {
        let prev = targets(keys, deps.drop_last());
        match npm::index_in(keys, base_of(key_for(deps.last().0, deps.last().1))) {
            Some(to) => prev.push(to),
            None => prev,
        }
    }
}

/// An edge from `from` to each of `tos`.
pub open spec fn pairs_from(from: usize, tos: Seq<usize>) -> Seq<(usize, usize)> {
    tos.map_values(|to: usize| (from, to))
}

/// The edges out of the first `n` snapshots, in order.
pub open spec fn snapshot_edges(keys: Seq<Seq<char>>, snaps: Seq<(Seq<char>, YValue)>, n: int) -> Seq<
    (usize, usize),
>
    decreases n,
{
    if n <= 0 {
        seq![]
    } else {
        let prev = snapshot_edges(keys, snaps, n - 1);
        match npm::index_in(keys, base_of(snaps[n - 1].0)) {
            None => prev,
            Some(from) => prev + pairs_from(from, targets(keys, resolved_deps(snaps[n - 1].1))),
        }
    }
}

/// The roots the first `n` manifests name, in order.
pub open spec fn manifest_roots(keys: Seq<Seq<char>>, manifests: Seq<YValue>, n: int) -> Seq<usize>
    decreases n,
{
    if n <= 0 {
        seq![]
    } else {
        manifest_roots(keys, manifests, n - 1) + targets(keys, declared_deps(manifests[n - 1]))
    }
}

/// The values of a mapping, in key order.
pub open spec fn values_of(m: Seq<(Seq<char>, YValue)>) -> Seq<YValue> {
    m.map_values(|x: (Seq<char>, YValue)| x.1)
}

/// `a` sorts before `b`, by origin and then by target.
pub open spec fn pair_lt(a: (usize, usize), b: (usize, usize)) -> bool {
    a.0 < b.0 || (a.0 == b.0 && a.1 < b.1)
}

pub open spec fn version_refused(path: Seq<char>, v: Seq<char>) -> Seq<char> {
    path + ": lockfileVersion "@ + v
        + " is not supported; stranger reads 9 and 6. Run `pnpm install` with pnpm 8 or newer to upgrade the file."@
}

pub open spec fn no_version(path: Seq<char>) -> Seq<char> {
    path + ": no lockfileVersion field; this does not look like a pnpm-lock.yaml"@
}

/// The tree a pnpm lockfile of version `major` describes.
pub open spec fn pnpm_tree(path: Seq<char>, doc: YValue, major: int, tree: Tree) -> bool {
    let es = match ydict(yfield(doc, "packages"@)) {
        Some(m) => m,
        None => seq![],
    };
    let fs = firsts(es);
    let keys = bases(fs);
    let snaps = if major == 6 {
        es
    } else {
        match ydict(yfield(doc, "snapshots"@)) {
            Some(m) => m,
            None => seq![],
        }
    };
    let manifests = match ydict(yfield(doc, "importers"@)) {
        Some(m) => values_of(m),
        None => if major == 6 {
            seq![doc]
        } else {
            seq![]
        },
    };
    let raw_edges = snapshot_edges(keys, snaps, snaps.len() as int);
    let raw_roots = manifest_roots(keys, manifests, manifests.len() as int);
    &&& tree.ecosystem == Ecosystem::Npm
    &&& tree.source@ == path
    &&& tree.packages@.len() == fs.len()
    &&& forall|i: int|
        0 <= i < fs.len() ==> (#[trigger] tree.packages@[i])@ == pnpm_package(
            fs[i].0,
            fs[i].1,
            optional_at(snaps, keys, i),
        )
    &&& forall|i: int, j: int| 0 <= i < j < tree.edges@.len() ==> pair_lt(tree.edges@[i], tree.edges@[j])
    &&& forall|e: (usize, usize)| #[trigger] tree.edges@.contains(e) <==> raw_edges.contains(e)
    &&& forall|i: int, j: int| 0 <= i < j < tree.roots@.len() ==> tree.roots@[i] < tree.roots@[j]
    &&& forall|x: usize| #[trigger]
        tree.roots@.contains(x) <==> (raw_roots.contains(x) && x < fs.len() && !is_directory(fs[x as int].1))
    &&& tree.records_edges
    &&& tree.records_install_scripts == (major == 6)
}

/// What reading `src` as a pnpm-lock.yaml at `path` gives. Versions 5 and
/// older key their packages differently and are refused by name.
pub open spec fn read_spec(path: Seq<char>, src: Seq<char>, r: Result<Tree>) -> bool {
    match yaml::parse_spec(src) {
        Err((w, at)) => r matches Err(e) && crate::json::syntax_at(toml::body(src), w, at, e),
        Ok(doc) => match ystr(yfield(doc, "lockfileVersion"@)) {
            None => r matches Err(Error::Usage(m)) && m@ == no_version(path),
            Some(v) => if major_part(v) == "9"@ {
                r matches Ok(t) && pnpm_tree(path, doc, 9, t)
            } else if major_part(v) == "6"@ {
                r matches Ok(t) && pnpm_tree(path, doc, 6, t)
            } else {
                r matches Err(Error::Usage(m)) && m@ == version_refused(path, v)
            },
        },
    }
}

fn str_at(v: &Value, k: &str) -> (r: Option<String>)
    ensures
        match ystr(yfield(yaml::yview(*v), k@)) {
            Some(s) => r matches Some(x) && x@ == s,
            None => r is None,
        },
{
    match v.get(k) {
        Some(x) => match x.as_str() {
            Some(s) => Some(text::owned(s)),
            None => None,
        },
        None => None,
    }
}

fn bool_at(v: &Value, k: &str) -> (r: Option<bool>)
    ensures
        r == ybool(yfield(yaml::yview(*v), k@)),
{
    match v.get(k) {
        Some(x) => x.as_bool(),
        None => None,
    }
}

/// Whether the member `f` of `v` has a member `k`.
fn sub_present(v: &Value, f: &str, k: &str) -> (r: bool)
    ensures
        r == (ysub(yfield(yaml::yview(*v), f@), k@) is Some),
{
    match v.get(f) {
        Some(x) => x.get(k).is_some(),
        None => false,
    }
}

fn base_chars(key: &Vec<char>) -> (r: Vec<char>)
    ensures
        r@ == base_of(key@),
{
    let k = if key.len() > 0 && key[0] == '/' {
        text::slice(key, 1, key.len())
    } else {
        text::slice(key, 0, key.len())
    };
    proof {
        assert(key@.subrange(0, key@.len() as int) =~= key@);
        assert(key@.len() > 0 ==> key@.subrange(1, key@.len() as int) =~= key@.skip(1));
    }
    match text::find_char(&k, '(') {
        Some(i) => {
            let r = text::slice(&k, 0, i);
            proof {
                assert(r@ =~= k@.take(i as int));
            }
            r
        },
        None => k,
    }
}

fn split_of(base: &Vec<char>) -> (r: (Vec<char>, Vec<char>))
    ensures
        (r.0@, r.1@) == split_key(base@),
{
    let at = text::chars_of("@");
    proof {
        reveal_strlit("@");
        assert(at@ =~= seq!['@']);
    }
    let blen = base.len();
    match npm::rfind_in(base, &at) {
        Some(i) => {
            if i > 0 {
                proof {
                    npm::lemma_last_at_bounds(base@, seq!['@'], base@.len() - 1);
                    assert(seq!['@'].len() == 1);
                    assert(npm::rfind(base@, seq!['@']) == npm::last_at(base@, seq!['@'], base@.len() - 1));
                    assert(i + 1 <= base@.len());
                }
                let n = text::slice(base, 0, i);
                let v = text::slice(base, i + 1, blen);
                proof {
                    assert(n@ =~= base@.take(i as int));
                    assert(v@ =~= base@.skip(i + 1));
                }
                (n, v)
            } else {
                (text::slice(base, 0, base.len()), Vec::new())
            }
        },
        None => (text::slice(base, 0, base.len()), Vec::new()),
    }
}

fn key_chars(name: &Vec<char>, version: &Vec<char>) -> (r: Vec<char>)
    ensures
        r@ == key_for(name@, version@),
{
    let file = text::chars_of("file:");
    let link = text::chars_of("link:");
    if text::starts_with(version, &file) || text::starts_with(version, &link) {
        text::slice(version, 0, version.len())
    } else {
        let mut r = text::slice(name, 0, name.len());
        r.push('@');
        let mut k: usize = 0;
        let ghost start = r@;
        proof {
            reveal_strlit("@");
        }
        while k < version.len()
            invariant
                k <= version@.len(),
                r@ == start + version@.take(k as int),
            decreases version@.len() - k,
        {
            r.push(version[k]);
            proof {
                assert(version@.take(k + 1) =~= version@.take(k as int).push(version@[k as int]));
            }
            k = k + 1;
        }
        proof {
            assert(version@.take(version@.len() as int) =~= version@);
            assert(start =~= name@ + "@"@);
        }
        r
    }
}

fn origin(entry: &Value) -> (o: Origin)
    ensures
        o == origin_of(yaml::yview(*entry)),
{
    match entry.get("resolution") {
        Some(res) => match res {
            Value::Mapping(m) => {
                proof {
                    yaml::lemma_yview_mapping(*m);
                }
                let off = res.get("tarball").is_some() || res.get("repo").is_some() || res.get("commit").is_some()
                    || res.get("directory").is_some() || res.get("type").is_some();
                if res.get("integrity").is_some() && !off {
                    Origin::Registry
                } else {
                    Origin::Elsewhere
                }
            },
            _ => Origin::Elsewhere,
        },
        None => Origin::Elsewhere,
    }
}

fn directory(entry: &Value) -> (r: bool)
    ensures
        r == is_directory(yaml::yview(*entry)),
{
    match entry.get("resolution") {
        Some(res) => match str_at(res, "type") {
            Some(t) => text::same(t.as_str(), "directory"),
            None => false,
        },
        None => false,
    }
}

fn package_of(key: &String, entry: &Value, optional: bool) -> (p: Package)
    ensures
        p@ == pnpm_package(key@, yaml::yview(*entry), optional),
{
    let base = base_chars(&text::chars_of(key.as_str()));
    let (n, v) = split_of(&base);
    let name = match str_at(entry, "name") {
        Some(d) => d,
        None => text::string_of(&n),
    };
    Package {
        name,
        version: text::string_of(&v),
        key: text::string_of(&base),
        dev: bool_at(entry, "dev") == Some(true),
        optional,
        first_party: directory(entry),
        install_script: bool_at(entry, "requiresBuild") == Some(true),
        has_integrity: sub_present(entry, "resolution", "integrity"),
        pinned: Pin::Exact,
        origin: origin(entry),
    }
}

/// The entries whose base is new, by position, with those bases.
fn first_entries(es: &Vec<(String, Value)>) -> (r: (Vec<usize>, Vec<Vec<char>>))
    ensures
        r.0@.len() == firsts(yaml::members_view(es@)).len(),
        text::seqs(r.1@) == bases(firsts(yaml::members_view(es@))),
        forall|j: int|
            0 <= j < r.0@.len() ==> #[trigger] r.0@[j] < es@.len() && yaml::members_view(es@)[r.0@[j] as int]
                == firsts(yaml::members_view(es@))[j],
{
    let ghost mv = yaml::members_view(es@);
    let mut idx: Vec<usize> = Vec::new();
    let mut keys: Vec<Vec<char>> = Vec::new();
    for i in 0..es.len()
        invariant
            mv == yaml::members_view(es@),
            idx@.len() == firsts(mv.take(i as int)).len(),
            text::seqs(keys@) == bases(firsts(mv.take(i as int))),
            forall|j: int|
                0 <= j < idx@.len() ==> #[trigger] idx@[j] < es@.len() && mv[idx@[j] as int] == firsts(
                    mv.take(i as int),
                )[j],
    {
        let ghost f = firsts(mv.take(i as int));
        proof {
            assert(mv.take(i + 1).drop_last() =~= mv.take(i as int));
            assert(mv.take(i + 1).last() == mv[i as int]);
            assert(mv[i as int] == (es@[i as int].0@, yaml::yview(es@[i as int].1)));
        }
        let base = base_chars(&text::chars_of(es[i].0.as_str()));
        if !text::contains_chars(&keys, &base) {
            let ghost ib = idx@;
            let ghost kb = keys@;
            idx.push(i);
            keys.push(base);
            proof {
                assert(firsts(mv.take(i + 1)) == f.push(mv[i as int]));
                assert(text::seqs(keys@) =~= text::seqs(kb).push(base@));
                assert(bases(f.push(mv[i as int])) =~= bases(f).push(base_of(mv[i as int].0)));
                assert forall|j: int| 0 <= j < idx@.len() implies #[trigger] idx@[j] < es@.len() && mv[idx@[j] as int]
                    == firsts(mv.take(i + 1))[j] by {
                    if j < ib.len() {
                        assert(idx@[j] == ib[j]);
                    }
                }
            }
        } else {
            proof {
                assert(firsts(mv.take(i + 1)) == f);
            }
        }
    }
    proof {
        assert(mv.take(es@.len() as int) =~= mv);
    }
    (idx, keys)
}

/// Which packages some snapshot marks optional.
fn optional_marks(keys: &Vec<Vec<char>>, snaps: &Vec<(String, Value)>) -> (r: Vec<bool>)
    ensures
        r@.len() == keys@.len(),
        forall|i: int|
            0 <= i < r@.len() ==> #[trigger] r@[i] == optional_at(
                yaml::members_view(snaps@),
                text::seqs(keys@),
                i,
            ),
{
    let ghost sv = yaml::members_view(snaps@);
    let ghost ks = text::seqs(keys@);
    let n = keys.len();
    let mut marks: Vec<bool> = Vec::new();
    for i in 0..n
        invariant
            marks@.len() == i,
            forall|x: int| 0 <= x < i ==> !(#[trigger] marks@[x]),
    {
        marks.push(false);
    }
    for j in 0..snaps.len()
        invariant
            n == keys@.len(),
            marks@.len() == n,
            sv == yaml::members_view(snaps@),
            ks == text::seqs(keys@),
            forall|x: int|
                0 <= x < n ==> (#[trigger] marks@[x] <==> exists|q: int|
                    0 <= q < j && npm::index_in(ks, base_of(#[trigger] sv[q].0)) == Some(x as usize) && ybool(
                        yfield(sv[q].1, "optional"@),
                    ) == Some(true)),
    {
        proof {
            assert(sv[j as int] == (snaps@[j as int].0@, yaml::yview(snaps@[j as int].1)));
        }
        let base = base_chars(&text::chars_of(snaps[j].0.as_str()));
        match npm::index_of(keys, &base) {
            Some(from) => {
                if bool_at(&snaps[j].1, "optional") == Some(true) {
                    marks.set(from, true);
                    proof {
                        assert forall|x: int| 0 <= x < n implies (#[trigger] marks@[x] <==> exists|q: int|
                            0 <= q < j + 1 && npm::index_in(ks, base_of(#[trigger] sv[q].0)) == Some(x as usize)
                                && ybool(yfield(sv[q].1, "optional"@)) == Some(true)) by {
                            if x == from {
                                assert(npm::index_in(ks, base_of(sv[j as int].0)) == Some(x as usize));
                            }
                        }
                    }
                }
            },
            None => {},
        }
    }
    marks
}

pub proof fn lemma_targets_add(keys: Seq<Seq<char>>, a: Seq<(Seq<char>, Seq<char>)>, b: Seq<(Seq<char>, Seq<char>)>)
    ensures
        targets(keys, a + b) == targets(keys, a) + targets(keys, b),
    decreases b.len(),
{
    if b.len() == 0 {
        assert(a + b =~= a);
        assert(targets(keys, a) + targets(keys, b) =~= targets(keys, a));
    } else {
        lemma_targets_add(keys, a, b.drop_last());
        assert((a + b).drop_last() =~= a + b.drop_last());
        assert((a + b).last() == b.last());
        match npm::index_in(keys, base_of(key_for(b.last().0, b.last().1))) {
            Some(to) => {
                assert(targets(keys, a) + targets(keys, b) =~= (targets(keys, a) + targets(keys, b.drop_last())).push(to));
            },
            None => {},
        }
    }
}

/// The packages the pairs of `m` point at, appended to `out`.
fn targets_of(keys: &Vec<Vec<char>>, m: &Vec<(String, Value)>, from_entry: bool, out: &mut Vec<usize>)
    ensures
        final(out)@ == old(out)@ + targets(text::seqs(keys@), pairs_in(yaml::members_view(m@), from_entry)),
{
    let ghost mv = yaml::members_view(m@);
    let ghost ks = text::seqs(keys@);
    let ghost o0 = out@;
    proof {
        assert(out@ =~= o0 + targets(ks, pairs_in(mv.take(0), from_entry)));
    }
    for k in 0..m.len()
        invariant
            mv == yaml::members_view(m@),
            ks == text::seqs(keys@),
            out@ == o0 + targets(ks, pairs_in(mv.take(k as int), from_entry)),
    {
        proof {
            assert(mv.take(k + 1).drop_last() =~= mv.take(k as int));
            assert(mv.take(k + 1).last() == (m@[k as int].0@, yaml::yview(m@[k as int].1)));
        }
        let version = if from_entry {
            str_at(&m[k].1, "version")
        } else {
            match m[k].1.as_str() {
                Some(s) => Some(text::owned(s)),
                None => None,
            }
        };
        let ghost pv = pairs_in(mv.take(k as int), from_entry);
        match version {
            Some(v) => {
                let name = text::chars_of(m[k].0.as_str());
                let want = base_chars(&key_chars(&name, &text::chars_of(v.as_str())));
                let ghost pair = (mv[k as int].0, v@);
                proof {
                    assert(pairs_in(mv.take(k + 1), from_entry) == pv.push(pair));
                    assert(pv.push(pair).drop_last() =~= pv);
                }
                match npm::index_of(keys, &want) {
                    Some(to) => {
                        out.push(to);
                        proof {
                            assert(targets(ks, pv.push(pair)) == targets(ks, pv).push(to));
                            assert(out@ =~= o0 + targets(ks, pairs_in(mv.take(k + 1), from_entry)));
                        }
                    },
                    None => {
                        proof {
                            assert(targets(ks, pv.push(pair)) == targets(ks, pv));
                        }
                    },
                }
            },
            None => {
                proof {
                    assert(pairs_in(mv.take(k + 1), from_entry) == pv);
                }
            },
        }
    }
    proof {
        assert(mv.take(m@.len() as int) =~= mv);
    }
}

/// The packages the pairs under `f` of `v` point at, appended to `out`.
fn targets_under(keys: &Vec<Vec<char>>, v: &Value, f: &str, from_entry: bool, out: &mut Vec<usize>)
    ensures
        final(out)@ == old(out)@ + targets(text::seqs(keys@), pairs_under(yaml::yview(*v), f@, from_entry)),
{
    match v.get(f) {
        Some(x) => match x {
            Value::Mapping(m) => {
                proof {
                    yaml::lemma_yview_mapping(*m);
                }
                targets_of(keys, m, from_entry, out);
            },
            _ => {
                proof {
                    assert(out@ =~= out@ + seq![]);
                }
            },
        },
        None => {
            proof {
                assert(out@ =~= out@ + seq![]);
            }
        },
    }
}

/// The packages a snapshot's resolved edges point at.
fn resolved_targets(keys: &Vec<Vec<char>>, snap: &Value) -> (r: Vec<usize>)
    ensures
        r@ == targets(text::seqs(keys@), resolved_deps(yaml::yview(*snap))),
{
    let mut out: Vec<usize> = Vec::new();
    let ghost v = yaml::yview(*snap);
    let ghost ks = text::seqs(keys@);
    targets_under(keys, snap, "dependencies", false, &mut out);
    targets_under(keys, snap, "optionalDependencies", false, &mut out);
    proof {
        lemma_targets_add(ks, pairs_under(v, "dependencies"@, false), pairs_under(v, "optionalDependencies"@, false));
        assert(out@ =~= targets(ks, resolved_deps(v)));
    }
    out
}

/// The packages a manifest's dependencies point at, appended to `out`.
fn declared_targets(keys: &Vec<Vec<char>>, importer: &Value, out: &mut Vec<usize>)
    ensures
        final(out)@ == old(out)@ + targets(text::seqs(keys@), declared_deps(yaml::yview(*importer))),
{
    let ghost v = yaml::yview(*importer);
    let ghost ks = text::seqs(keys@);
    let ghost o0 = out@;
    targets_under(keys, importer, "dependencies", true, out);
    targets_under(keys, importer, "devDependencies", true, out);
    targets_under(keys, importer, "optionalDependencies", true, out);
    proof {
        let a = pairs_under(v, "dependencies"@, true);
        let b = pairs_under(v, "devDependencies"@, true);
        let c = pairs_under(v, "optionalDependencies"@, true);
        lemma_targets_add(ks, a, b);
        lemma_targets_add(ks, a + b, c);
        assert(out@ =~= o0 + targets(ks, declared_deps(v)));
    }
}

pub open spec fn sorted_pairs(s: Seq<(usize, usize)>) -> bool {
    forall|i: int, j: int| 0 <= i < j < s.len() ==> pair_lt(s[i], s[j])
}

/// `e` put in its place in a sorted list of edges, once.
fn insert_pair(list: &mut Vec<(usize, usize)>, e: (usize, usize))
    requires
        sorted_pairs(old(list)@),
    ensures
        sorted_pairs(final(list)@),
        forall|x: (usize, usize)| #[trigger] final(list)@.contains(x) <==> (old(list)@.contains(x) || x == e),
{
    let ghost l0 = list@;
    let mut i: usize = 0;
    while i < list.len() && (list[i].0 < e.0 || (list[i].0 == e.0 && list[i].1 < e.1))
        invariant
            i <= list@.len(),
            list@ == l0,
            sorted_pairs(l0),
            forall|j: int| 0 <= j < i ==> pair_lt(#[trigger] l0[j], e),
        decreases list@.len() - i,
    {
        i = i + 1;
    }
    if i < list.len() && list[i].0 == e.0 && list[i].1 == e.1 {
        proof {
            assert forall|x: (usize, usize)| #[trigger] list@.contains(x) <==> (l0.contains(x) || x == e) by {
                if x == e {
                    assert(list@[i as int] == e);
                }
            }
        }
        return;
    }
    list.insert(i, e);
    proof {
        assert forall|a: int, b: int| 0 <= a < b < list@.len() implies pair_lt(list@[a], list@[b]) by {
            if b < i {
                assert(list@[a] == l0[a] && list@[b] == l0[b]);
            } else if b == i {
                assert(list@[a] == l0[a]);
            } else if a < i {
                assert(list@[a] == l0[a] && list@[b] == l0[b - 1]);
                assert(pair_lt(l0[a], e));
                assert(!pair_lt(l0[i as int], e));
                if b - 1 > i {
                    assert(pair_lt(l0[i as int], l0[b - 1]));
                }
            } else if a == i {
                assert(list@[b] == l0[b - 1]);
                assert(!pair_lt(l0[i as int], e));
                if b - 1 > i {
                    assert(pair_lt(l0[i as int], l0[b - 1]));
                }
            } else {
                assert(list@[a] == l0[a - 1] && list@[b] == l0[b - 1]);
            }
        }
        assert forall|x: (usize, usize)| #[trigger] list@.contains(x) <==> (l0.contains(x) || x == e) by {
            if list@.contains(x) {
                let q = choose|q: int| 0 <= q < list@.len() && list@[q] == x;
                if q < i {
                    assert(l0[q] == x);
                } else if q > i {
                    assert(l0[q - 1] == x);
                }
            }
            if l0.contains(x) {
                let q = choose|q: int| 0 <= q < l0.len() && l0[q] == x;
                if q < i {
                    assert(list@[q] == x);
                } else {
                    assert(list@[q + 1] == x);
                }
            }
            if x == e {
                assert(list@[i as int] == e);
            }
        }
    }
}

/// The mapping under `k` of `doc`, or `none`.
fn mapping_at<'a>(doc: &'a Value, k: &str, none: &'a Vec<(String, Value)>) -> (r: &'a Vec<(String, Value)>)
    requires
        none@.len() == 0,
    ensures
        yaml::members_view(r@) == match ydict(yfield(yaml::yview(*doc), k@)) {
            Some(m) => m,
            None => seq![],
        },
{
    proof {
        assert(yaml::members_view(none@) =~= seq![]);
    }
    match doc.get(k) {
        Some(x) => match x {
            Value::Mapping(m) => {
                proof {
                    yaml::lemma_yview_mapping(*m);
                }
                m
            },
            _ => none,
        },
        None => none,
    }
}

/// The tree a document of version `major` describes.
fn build(path: &str, doc: &Value, major: u32) -> (t: Tree)
    ensures
        pnpm_tree(path@, yaml::yview(*doc), major as int, t),
{
    let ghost dv = yaml::yview(*doc);
    let none: Vec<(String, Value)> = Vec::new();
    let es = mapping_at(doc, "packages", &none);
    let (idx, keys) = first_entries(es);
    let ghost mv = yaml::members_view(es@);
    let ghost fs = firsts(mv);
    let ghost ks = text::seqs(keys@);
    let snaps = if major == 6 {
        es
    } else {
        mapping_at(doc, "snapshots", &none)
    };
    let ghost sv = yaml::members_view(snaps@);
    let marks = optional_marks(&keys, snaps);
    let n = idx.len();
    let mut packages: Vec<Package> = Vec::new();
    for i in 0..n
        invariant
            n == idx@.len(),
            n == fs.len(),
            n == marks@.len(),
            mv == yaml::members_view(es@),
            fs == firsts(mv),
            forall|j: int| 0 <= j < n ==> #[trigger] idx@[j] < es@.len() && mv[idx@[j] as int] == fs[j],
            forall|j: int| 0 <= j < n ==> #[trigger] marks@[j] == optional_at(sv, ks, j),
            packages@.len() == i,
            forall|j: int|
                0 <= j < i ==> (#[trigger] packages@[j])@ == pnpm_package(fs[j].0, fs[j].1, optional_at(sv, ks, j)),
    {
        let e = &es[idx[i]];
        proof {
            assert(mv[idx@[i as int] as int] == (e.0@, yaml::yview(e.1)));
            assert(mv[idx@[i as int] as int] == fs[i as int]);
        }
        let p = package_of(&e.0, &e.1, marks[i]);
        packages.push(p);
    }
    let mut raw_edges: Vec<(usize, usize)> = Vec::new();
    for j in 0..snaps.len()
        invariant
            sv == yaml::members_view(snaps@),
            ks == text::seqs(keys@),
            raw_edges@ == snapshot_edges(ks, sv, j as int),
    {
        proof {
            assert(sv[j as int] == (snaps@[j as int].0@, yaml::yview(snaps@[j as int].1)));
        }
        let base = base_chars(&text::chars_of(snaps[j].0.as_str()));
        match npm::index_of(&keys, &base) {
            Some(from) => {
                let tos = resolved_targets(&keys, &snaps[j].1);
                let ghost before = raw_edges@;
                for t in 0..tos.len()
                    invariant
                        raw_edges@ == before + pairs_from(from, tos@.take(t as int)),
                {
                    raw_edges.push((from, tos[t]));
                    proof {
                        assert(pairs_from(from, tos@.take(t + 1)) =~= pairs_from(from, tos@.take(t as int)).push(
                            (from, tos@[t as int]),
                        ));
                    }
                }
                proof {
                    assert(tos@.take(tos@.len() as int) =~= tos@);
                }
            },
            None => {},
        }
    }
    let mut raw_roots: Vec<usize> = Vec::new();
    let imp = match doc.get("importers") {
        Some(x) => {
            proof {
                match x {
                    Value::Mapping(mm) => yaml::lemma_yview_mapping(*mm),
                    _ => {},
                }
            }
            x.as_mapping()
        },
        None => None,
    };
    match imp {
        Some(m) => {
            let ghost im = yaml::members_view(m@);
            let ghost mans = values_of(im);
            for k in 0..m.len()
                invariant
                    im == yaml::members_view(m@),
                    mans == values_of(im),
                    ks == text::seqs(keys@),
                    raw_roots@ == manifest_roots(ks, mans, k as int),
            {
                proof {
                    assert(mans[k as int] == yaml::yview(m@[k as int].1));
                }
                declared_targets(&keys, &m[k].1, &mut raw_roots);
            }
        },
        None => {
            if major == 6 {
                declared_targets(&keys, doc, &mut raw_roots);
                proof {
                    assert(manifest_roots(ks, seq![dv], 0) =~= Seq::<usize>::empty());
                    assert(raw_roots@ =~= manifest_roots(ks, seq![dv], 1));
                }
            }
        },
    }
    let mut edges: Vec<(usize, usize)> = Vec::new();
    for j in 0..raw_edges.len()
        invariant
            sorted_pairs(edges@),
            forall|x: (usize, usize)| #[trigger] edges@.contains(x) <==> raw_edges@.take(j as int).contains(x),
    {
        proof {
            assert(raw_edges@.take(j + 1) =~= raw_edges@.take(j as int).push(raw_edges@[j as int]));
        }
        insert_pair(&mut edges, raw_edges[j]);
        proof {
            assert forall|x: (usize, usize)| #[trigger] edges@.contains(x) <==> raw_edges@.take(j + 1).contains(x) by {
                let t1 = raw_edges@.take(j + 1);
                if t1.contains(x) {
                    let q = choose|q: int| 0 <= q < t1.len() && t1[q] == x;
                    if q < j {
                        assert(raw_edges@.take(j as int)[q] == x);
                    }
                }
                if raw_edges@.take(j as int).contains(x) {
                    let q = choose|q: int| 0 <= q < j && raw_edges@.take(j as int)[q] == x;
                    assert(t1[q] == x);
                }
                if x == raw_edges@[j as int] {
                    assert(t1[j as int] == x);
                }
            }
        }
    }
    proof {
        assert(raw_edges@.take(raw_edges@.len() as int) =~= raw_edges@);
    }
    let roots = lock::keep_roots(&raw_roots, &packages);
    let t = Tree {
        ecosystem: Ecosystem::Npm,
        source: text::owned(path),
        packages,
        edges,
        roots,
        records_edges: true,
        records_install_scripts: major == 6,
    };
    proof {
        assert forall|x: usize| #[trigger] t.roots@.contains(x) <==> (raw_roots@.contains(x) && x < fs.len()
            && !is_directory(fs[x as int].1)) by {
            if x < fs.len() {
                assert(t.packages@[x as int]@ == pnpm_package(fs[x as int].0, fs[x as int].1, optional_at(sv, ks, x as int)));
            }
        }
    }
    t
}

/// Read a pnpm-lock.yaml.
pub fn read(path: &str, src: &str) -> (r: Result<Tree>)
    requires
        src@.len() < u32::MAX,
    ensures
        read_spec(path@, src@, r),
{
    let doc = yaml::parse(src)?;
    let v = match str_at(&doc, "lockfileVersion") {
        Some(v) => v,
        None => {
            let mut m = text::owned(path);
            text::append(&mut m, ": no lockfileVersion field; this does not look like a pnpm-lock.yaml");
            return Err(Error::usage(m.as_str()));
        },
    };
    let vc = text::chars_of(v.as_str());
    let part = match text::find_char(&vc, '.') {
        Some(i) => text::slice(&vc, 0, i),
        None => text::slice(&vc, 0, vc.len()),
    };
    proof {
        assert(vc@.subrange(0, vc@.len() as int) =~= vc@);
        assert(part@ == major_part(v@));
    }
    let nine = text::chars_of("9");
    let six = text::chars_of("6");
    if text::same_chars(&part, &nine) {
        Ok(build(path, &doc, 9))
    } else if text::same_chars(&part, &six) {
        Ok(build(path, &doc, 6))
    } else {
        let mut m = text::owned(path);
        text::append(&mut m, ": lockfileVersion ");
        text::append(&mut m, v.as_str());
        text::append(
            &mut m,
            " is not supported; stranger reads 9 and 6. Run `pnpm install` with pnpm 8 or newer to upgrade the file.",
        );
        Err(Error::usage(m.as_str()))
    }
}

} // verus!
