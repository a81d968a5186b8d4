//! package-lock.json, lockfileVersion 2 and 3.
//!
//! `packages` is keyed by install *path*, not by name:
//! `node_modules/@babel/core`, and for a duplicated version
//! `node_modules/eslint/node_modules/semver`. So resolving one package's
//! dependency to another package's entry means reproducing npm's own lookup:
//! try the nearest `node_modules` directory, then walk up. Getting that wrong
//! gives a graph with the wrong edges, which silently corrupts in-degree.
use crate::error::{Error, Result};
use crate::json::{self, jfield, JValue, Value};
use crate::lock::{self, Ecosystem, Origin, Package, PackageView, Pin, PinView, Tree};
use crate::text;
use vstd::prelude::*;

verus! {

/// The directory every installed package sits in.
pub open spec fn nm() -> Seq<char> {
    "node_modules/"@
}

/// The separator the walk up the install path cuts at.
pub open spec fn nm_sep() -> Seq<char> {
    "/node_modules/"@
}

/// The last position at or before `i` where `pat` starts in `s`, or -1.
pub open spec fn last_at(s: Seq<char>, pat: Seq<char>, i: int) -> int
    decreases i + 1,
{
    if i < 0 {
        -1
    } else if i + pat.len() <= s.len() && s.subrange(i, i + pat.len()) == pat {
        i
    } else {
        last_at(s, pat, i - 1)
    }
}

/// Where `pat` last occurs in `s`, or -1.
pub open spec fn rfind(s: Seq<char>, pat: Seq<char>) -> int {
    last_at(s, pat, s.len() - pat.len())
}

pub proof fn lemma_last_at_bounds(s: Seq<char>, pat: Seq<char>, i: int)
    ensures
        -1 <= last_at(s, pat, i),
        last_at(s, pat, i) >= 0 ==> last_at(s, pat, i) <= i && last_at(s, pat, i) + pat.len() <= s.len(),
    decreases i + 1,
{
    if i >= 0 {
        lemma_last_at_bounds(s, pat, i - 1);
    }
}

/// `node_modules/a/node_modules/@scope/b` is the package `@scope/b`: the last
/// `node_modules/` wins, and a scope slash after it is part of the name.
pub open spec fn name_from_key(key: Seq<char>) -> Seq<char> {
    let i = rfind(key, nm());
    if i >= 0 {
        key.skip(i + nm().len())
    } else {
        key
    }
}

pub open spec fn jstr(v: Option<JValue>) -> Option<Seq<char>> {
    match v {
        Some(JValue::Str(s)) => Some(s),
        _ => None,
    }
}

pub open spec fn jbool(v: Option<JValue>) -> Option<bool> {
    match v {
        Some(JValue::Bool(b)) => Some(b),
        _ => None,
    }
}

/// A key with no `node_modules/` in it is a workspace directory, and a
/// `link: true` entry is the symlink npm leaves pointing at one: somebody in
/// this repository wrote both.
pub open spec fn first_party(key: Seq<char>, entry: JValue) -> bool {
    rfind(key, nm()) < 0 || jbool(jfield(entry, "link"@)) == Some(true)
}

pub open spec fn registry() -> Seq<char> {
    "https://registry.npmjs.org/"@
}

/// One entry of `packages` as a package. The version a lockfile records is
/// the resolver's answer, and the answer is one version.
pub open spec fn npm_package(key: Seq<char>, entry: JValue) -> PackageView {
    PackageView {
        name: name_from_key(key),
        version: match jstr(jfield(entry, "version"@)) {
            Some(v) => v,
            None => seq![],
        },
        key,
        dev: jbool(jfield(entry, "dev"@)) == Some(true),
        optional: jbool(jfield(entry, "optional"@)) == Some(true),
        first_party: first_party(key, entry),
        install_script: jbool(jfield(entry, "hasInstallScript"@)) == Some(true),
        has_integrity: jfield(entry, "integrity"@) is Some,
        pinned: PinView::Exact,
        origin: if jstr(jfield(entry, "resolved"@)) matches Some(u) && registry().is_prefix_of(u) {
            Origin::Registry
        } else {
            Origin::Elsewhere
        },
    }
}

/// The entries of `packages` other than the root project's, in order.
pub open spec fn non_root(es: Seq<(Seq<char>, JValue)>) -> Seq<(Seq<char>, JValue)>
    decreases es.len(),
{
    if es.len() == 0 {
        seq![]
    } else if es.last().0.len() == 0 {
        non_root(es.drop_last())
    } else {
        non_root(es.drop_last()).push(es.last())
    }
}

pub open spec fn keys_of(es: Seq<(Seq<char>, JValue)>) -> Seq<Seq<char>> {
    es.map_values(|e: (Seq<char>, JValue)| e.0)
}

/// The keys of the object under `f`, in order, or none.
pub open spec fn field_keys(entry: JValue, f: Seq<char>) -> Seq<Seq<char>> {
    match jfield(entry, f) {
        Some(JValue::Object(m)) => keys_of(m),
        _ => seq![],
    }
}

/// Every name a maintainer wrote down as a dependency of this entry. Peer
/// dependencies count: an extra in-edge can only suppress a finding.
pub open spec fn deps_of(entry: JValue) -> Seq<Seq<char>> {
    field_keys(entry, "dependencies"@) + field_keys(entry, "devDependencies"@) + field_keys(
        entry,
        "optionalDependencies"@,
    ) + field_keys(entry, "peerDependencies"@)
}

/// The first position of `k` in `keys`.
pub open spec fn index_in(keys: Seq<Seq<char>>, k: Seq<char>) -> Option<usize>
    decreases keys.len(),
{
    if keys.len() == 0 {
        None
    } else if keys.last() == k && !keys.drop_last().contains(k) {
        Some((keys.len() - 1) as usize)
    } else {
        index_in(keys.drop_last(), k)
    }
}

/// Where npm finds `dep` for the package installed at `prefix`: the nearest
/// `node_modules` first, then each one further up.
pub open spec fn npm_resolve(keys: Seq<Seq<char>>, prefix: Seq<char>, dep: Seq<char>) -> Option<usize>
    decreases prefix.len(),
{
    let cand = if prefix.len() == 0 {
        nm() + dep
    } else {
        prefix + "/"@ + nm() + dep
    };
    if index_in(keys, cand) is Some {
        index_in(keys, cand)
    } else if prefix.len() == 0 {
        None
    } else {
        let i = rfind(prefix, nm_sep());
        proof {
            lemma_last_at_bounds(prefix, nm_sep(), prefix.len() - nm_sep().len());
            reveal_strlit("/node_modules/");
        }
        npm_resolve(
            keys,
            if i >= 0 {
                prefix.take(i)
            } else {
                seq![]
            },
            dep,
        )
    }
}

/// The edges and root links of the dependencies `deps` of package `from`.
pub open spec fn dep_links(
    keys: Seq<Seq<char>>,
    ours: bool,
    from: usize,
    prefix: Seq<char>,
    deps: Seq<Seq<char>>,
) -> (Seq<(usize, usize)>, Seq<usize>)
    decreases deps.len(),
{
    if deps.len() == 0 {
        (seq![], seq![])
    } else {
        let (e, r) = dep_links(keys, ours, from, prefix, deps.drop_last());
        match npm_resolve(keys, prefix, deps.last()) {
            None => (e, r),
            Some(to) => if ours {
                (e, r.push(to))
            } else {
                (e.push((from, to)), r)
            },
        }
    }
}

/// The edges and root links of the first `n` packages.
pub open spec fn all_links(es: Seq<(Seq<char>, JValue)>, n: int) -> (Seq<(usize, usize)>, Seq<usize>)
    decreases n,
{
    if n <= 0 {
        (seq![], seq![])
    } else {
        let (e, r) = all_links(es, n - 1);
        let (k, entry) = es[n - 1];
        let (e2, r2) = dep_links(
            keys_of(es),
            first_party(k, entry),
            (n - 1) as usize,
            k,
            deps_of(entry),
        );
        (e + e2, r + r2)
    }
}

/// The packages the root manifest names.
pub open spec fn root_links(entries: Seq<(Seq<char>, JValue)>) -> Seq<usize> {
    let es = non_root(entries);
    let root = match json::jlookup(entries, seq![]) {
        Some(v) => v,
        None => JValue::Null,
    };
    dep_links(keys_of(es), true, 0, seq![], deps_of(root)).1
}

/// The tree a `packages` map describes. Edges out of the root manifest and
/// out of workspace members are not evidence a stranger wrote the name, so
/// those land in `roots`, each once, in index order, never a workspace member.
pub open spec fn npm_tree(path: Seq<char>, entries: Seq<(Seq<char>, JValue)>, tree: Tree) -> bool {
    let es = non_root(entries);
    let pkgs = es.map_values(|e: (Seq<char>, JValue)| npm_package(e.0, e.1));
    let (edges, raw) = all_links(es, es.len() as int);
    let raw_roots = root_links(entries) + raw;
    &&& tree.ecosystem == Ecosystem::Npm
    &&& tree.source@ == path
    &&& lock::package_views(tree.packages@) == pkgs
    &&& tree.edges@ == edges
    &&& forall|i: int, j: int| 0 <= i < j < tree.roots@.len() ==> tree.roots@[i] < tree.roots@[j]
    &&& forall|x: usize| #[trigger]
        tree.roots@.contains(x) <==> (raw_roots.contains(x) && x < pkgs.len() && !pkgs[x as int].first_party)
    &&& tree.records_edges
    &&& tree.records_install_scripts
}

/// A number, read as the decimal it writes, is at least two. The test is on
/// the exact decimal, not on the nearest double: `1.99999999999999999`, which
/// a double would round up to 2, is below two here and refused. Not negative,
/// and its first significant digit `d` stands at a power of ten `t` (the
/// number lies in `[d * 10^t, (d + 1) * 10^t)`) with `t >= 1`, or `t == 0`
/// and `d >= 2`.
pub open spec fn at_least_two(t: Seq<char>) -> bool {
    let neg = t.len() > 0 && t[0] == '-';
    let u = if neg {
        t.skip(1)
    } else {
        t
    };
    let i_end = json::digits_end(u, 0);
    let dot = i_end < u.len() && u[i_end] == '.';
    let f_end = if dot {
        json::digits_end(u, i_end + 1)
    } else {
        i_end
    };
    let frac = if dot {
        u.subrange(i_end + 1, f_end)
    } else {
        seq![]
    };
    let mant = u.take(i_end) + frac;
    let rest = u.skip(f_end);
    let e_neg = rest.len() > 1 && rest[1] == '-';
    let e_digits = if rest.len() > 1 && (rest[1] == '-' || rest[1] == '+') {
        rest.skip(2)
    } else {
        rest.skip(1)
    };
    let exp: int = if rest.len() == 0 {
        0
    } else if e_neg {
        -(text::decimal_value(e_digits) as int)
    } else {
        text::decimal_value(e_digits) as int
    };
    let lead = first_nonzero(mant, 0);
    &&& !neg
    &&& lead < mant.len()
    &&& {
        let power = (mant.len() - lead - 1) + exp - frac.len();
        power >= 1 || (power == 0 && mant[lead] >= '2')
    }
}

/// The first position at or after `i` whose digit is not zero.
pub open spec fn first_nonzero(s: Seq<char>, i: int) -> int
    decreases s.len() - i,
{
    if 0 <= i < s.len() && s[i] == '0' {
        first_nonzero(s, i + 1)
    } else {
        i
    }
}

/// The refusal of a `lockfileVersion` the reader does not take, quoting the
/// number as the file writes it (`1.0` stays `1.0`; nothing here turns it
/// into a double and back).
pub open spec fn version_refused(path: Seq<char>, n: Seq<char>) -> Seq<char> {
    path + ": lockfileVersion "@ + n
        + " is not supported; stranger reads 2 and 3. Run `npm install` with npm 7 or newer to upgrade the file."@
}

pub open spec fn no_version(path: Seq<char>) -> Seq<char> {
    path + ": no lockfileVersion field; this does not look like a package-lock.json"@
}

pub open spec fn no_packages(path: Seq<char>) -> Seq<char> {
    path + ": no `packages` map"@
}

/// What reading `src` as a package-lock.json at `path` gives. Version 1 kept
/// the tree somewhere else entirely, so it is refused by name rather than
/// read as an empty project.
pub open spec fn read_spec(path: Seq<char>, src: Seq<char>, r: Result<Tree>) -> bool {
    match json::parse_spec(src) {
        Err((w, at)) => r matches Err(e) && json::syntax_at(src, w, at, e),
        Ok((doc, _)) => match jfield(doc, "lockfileVersion"@) {
            Some(JValue::Number(n)) => if !at_least_two(n) {
                r matches Err(Error::Usage(m)) && m@ == version_refused(path, n)
            } else {
                match jfield(doc, "packages"@) {
                    Some(JValue::Object(es)) => r matches Ok(t) && npm_tree(path, es, t),
                    _ => r matches Err(Error::Usage(m)) && m@ == no_packages(path),
                }
            },
            _ => r matches Err(Error::Usage(m)) && m@ == no_version(path),
        },
    }
}

/// Where `pat` last occurs in `s`.
pub(crate) fn rfind_in(s: &Vec<char>, pat: &Vec<char>) -> (r: Option<usize>)
    ensures
        match r {
            Some(i) => rfind(s@, pat@) == i,
            None => rfind(s@, pat@) < 0,
        },
{
    if pat.len() > s.len() {
        return None;
    }
    let n = s.len();
    let mut k: usize = n - pat.len();
    loop
        invariant
            n == s@.len(),
            pat@.len() <= s@.len(),
            k <= s@.len() - pat@.len(),
            rfind(s@, pat@) == last_at(s@, pat@, k as int),
        decreases k,
    {
        assert(k + pat@.len() <= s@.len());
        let here = text::slice(s, k, k + pat.len());
        if text::same_chars(&here, pat) {
            return Some(k);
        }
        if k == 0 {
            assert(last_at(s@, pat@, -1) == -1);
            return None;
        }
        k = k - 1;
    }
}

fn nm_chars() -> (v: Vec<char>)
    ensures
        v@ == nm(),
        v@.len() == 13,
{
    proof {
        reveal_strlit("node_modules/");
    }
    text::chars_of("node_modules/")
}

fn nm_sep_chars() -> (v: Vec<char>)
    ensures
        v@ == nm_sep(),
        v@.len() == 14,
{
    proof {
        reveal_strlit("/node_modules/");
    }
    text::chars_of("/node_modules/")
}

fn package_name(key: &Vec<char>) -> (r: Vec<char>)
    ensures
        r@ == name_from_key(key@),
{
    let nmc = nm_chars();
    let n = key.len();
    match rfind_in(key, &nmc) {
        Some(i) => {
            proof {
                reveal_strlit("node_modules/");
                lemma_last_at_bounds(key@, nm(), key@.len() - nm().len());
                assert(rfind(key@, nm()) == i);
                assert(nm().len() == 13);
                assert(i + 13 <= key@.len());
                assert(key@.subrange(i + 13, key@.len() as int) =~= key@.skip(i + 13));
            }
            text::slice(key, i + 13, n)
        },
        None => text::slice(key, 0, key.len()),
    }
}

proof fn lemma_index_in(keys: Seq<Seq<char>>, k: Seq<char>, i: int)
    requires
        0 <= i <= keys.len(),
        forall|j: int| 0 <= j < i ==> keys[j] != k,
        i < keys.len() ==> keys[i] == k,
    ensures
        index_in(keys, k) == if i < keys.len() {
            Some(i as usize)
        } else {
            None::<usize>
        },
    decreases keys.len(),
{
    if keys.len() > 0 {
        let t = keys.drop_last();
        if i < keys.len() - 1 {
            lemma_index_in(t, k, i);
            assert(t.contains(k)) by {
                assert(t[i] == k);
            }
        } else if i == keys.len() - 1 {
            assert(!t.contains(k)) by {
                if t.contains(k) {
                    let j = choose|j: int| 0 <= j < t.len() && t[j] == k;
                    assert(keys[j] == k);
                }
            }
        } else {
            lemma_index_in(t, k, t.len() as int);
        }
    }
}

/// Where `k` is in `keys`.
pub(crate) fn index_of(keys: &Vec<Vec<char>>, k: &Vec<char>) -> (r: Option<usize>)
    ensures
        r == index_in(text::seqs(keys@), k@),
        r matches Some(i) ==> i < keys@.len(),
{
    let ghost ks = text::seqs(keys@);
    for i in 0..keys.len()
        invariant
            ks == text::seqs(keys@),
            forall|j: int| 0 <= j < i ==> ks[j] != k@,
    {
        if text::same_chars(&keys[i], k) {
            proof {
                lemma_index_in(ks, k@, i as int);
            }
            return Some(i);
        }
    }
    proof {
        lemma_index_in(ks, k@, ks.len() as int);
    }
    None
}

/// Where npm finds `dep` for the package installed at `from`.
fn resolve(keys: &Vec<Vec<char>>, from: &Vec<char>, dep: &Vec<char>) -> (r: Option<usize>)
    ensures
        r == npm_resolve(text::seqs(keys@), from@, dep@),
        r matches Some(i) ==> i < keys@.len(),
{
    let ghost ks = text::seqs(keys@);
    let nmc = nm_chars();
    let sep = nm_sep_chars();
    let mut prefix = text::slice(from, 0, from.len());
    proof {
        assert(prefix@ =~= from@);
    }
    loop
        invariant
            ks == text::seqs(keys@),
            nmc@ == nm(),
            sep@ == nm_sep(),
            npm_resolve(ks, prefix@, dep@) == npm_resolve(ks, from@, dep@),
        decreases prefix@.len(),
    {
        let mut cand: Vec<char> = Vec::new();
        if prefix.len() > 0 {
            cand = text::slice(&prefix, 0, prefix.len());
            cand.push('/');
        }
        let mut nm_part = text::slice(&nmc, 0, nmc.len());
        cand.append(&mut nm_part);
        let mut dep_part = text::slice(dep, 0, dep.len());
        cand.append(&mut dep_part);
        proof {
            reveal_strlit("/");
            if prefix@.len() == 0 {
                assert(cand@ =~= nm() + dep@);
            } else {
                assert(cand@ =~= prefix@ + "/"@ + nm() + dep@);
            }
        }
        let found = index_of(keys, &cand);
        if found.is_some() {
            return found;
        }
        if prefix.len() == 0 {
            return None;
        }
        proof {
            reveal_strlit("/node_modules/");
            lemma_last_at_bounds(prefix@, nm_sep(), prefix@.len() - nm_sep().len());
        }
        prefix = match rfind_in(&prefix, &sep) {
            Some(i) => text::slice(&prefix, 0, i),
            None => Vec::new(),
        };
    }
}

fn str_field(entry: &Value, f: &str) -> (r: Option<String>)
    ensures
        match jstr(jfield(json::jview(*entry), f@)) {
            Some(s) => r matches Some(x) && x@ == s,
            None => r is None,
        },
{
    match entry.get(f) {
        Some(v) => match v {
            Value::String(s) => Some(s.clone()),
            _ => None,
        },
        None => None,
    }
}

fn bool_field(entry: &Value, f: &str) -> (r: Option<bool>)
    ensures
        r == jbool(jfield(json::jview(*entry), f@)),
{
    match entry.get(f) {
        Some(v) => match v {
            Value::Bool(b) => Some(*b),
            _ => None,
        },
        None => None,
    }
}

/// The keys of the object under `f`, in order.
fn keys_under(entry: &Value, f: &str, out: &mut Vec<Vec<char>>)
    ensures
        text::seqs(final(out)@) == text::seqs(old(out)@) + field_keys(json::jview(*entry), f@),
{
    let ghost before = out@;
    match entry.get(f) {
        Some(v) => match v {
            Value::Object(m) => {
                proof {
                    json::lemma_jview_object(*m);
                }
                let ghost mv = json::members_view(m@);
                for i in 0..m.len()
                    invariant
                        mv == json::members_view(m@),
                        text::seqs(out@) == text::seqs(before) + keys_of(mv).take(i as int),
                {
                    let ghost prev = out@;
                    out.push(text::chars_of(m[i].0.as_str()));
                    proof {
                        assert(text::seqs(out@) =~= text::seqs(prev).push(m@[i as int].0@));
                        assert(keys_of(mv).take(i + 1) =~= keys_of(mv).take(i as int).push(mv[i as int].0));
                    }
                }
                proof {
                    assert(keys_of(mv).take(mv.len() as int) =~= keys_of(mv));
                }
            },
            _ => {
                proof {
                    assert(text::seqs(out@) =~= text::seqs(before) + seq![]);
                }
            },
        },
        None => {
            proof {
                assert(text::seqs(out@) =~= text::seqs(before) + seq![]);
            }
        },
    }
}

/// Every name an entry lists as a dependency, field by field.
fn deps_list(entry: &Value) -> (r: Vec<Vec<char>>)
    ensures
        text::seqs(r@) == deps_of(json::jview(*entry)),
{
    let mut out: Vec<Vec<char>> = Vec::new();
    proof {
        assert(text::seqs(out@) =~= seq![]);
    }
    keys_under(entry, "dependencies", &mut out);
    keys_under(entry, "devDependencies", &mut out);
    keys_under(entry, "optionalDependencies", &mut out);
    keys_under(entry, "peerDependencies", &mut out);
    proof {
        let v = json::jview(*entry);
        assert(text::seqs(out@) =~= deps_of(v));
    }
    out
}

/// One entry of `packages` as a package.
fn package_of(key: &String, entry: &Value) -> (p: Package)
    ensures
        p@ == npm_package(key@, json::jview(*entry)),
{
    let kc = text::chars_of(key.as_str());
    let name = text::string_of(&package_name(&kc));
    let version = match str_field(entry, "version") {
        Some(v) => v,
        None => String::new(),
    };
    let nmc = nm_chars();
    let link = bool_field(entry, "link");
    let first_party = rfind_in(&kc, &nmc).is_none() || link == Some(true);
    let origin = match str_field(entry, "resolved") {
        Some(u) => {
            let uc = text::chars_of(u.as_str());
            proof {
                reveal_strlit("https://registry.npmjs.org/");
            }
            let reg = text::chars_of("https://registry.npmjs.org/");
            if text::starts_with(&uc, &reg) {
                Origin::Registry
            } else {
                Origin::Elsewhere
            }
        },
        None => Origin::Elsewhere,
    };
    let p = Package {
        name,
        version,
        key: key.clone(),
        dev: bool_field(entry, "dev") == Some(true),
        optional: bool_field(entry, "optional") == Some(true),
        first_party,
        install_script: bool_field(entry, "hasInstallScript") == Some(true),
        has_integrity: entry.get("integrity").is_some(),
        pinned: Pin::Exact,
        origin,
    };
    proof {
        assert(p@.name == name_from_key(key@));
    }
    p
}

/// The links of dependencies `deps` of package `from`, appended.
fn links_of(
    keys: &Vec<Vec<char>>,
    ours: bool,
    from: usize,
    prefix: &Vec<char>,
    deps: &Vec<Vec<char>>,
    edges: &mut Vec<(usize, usize)>,
    roots: &mut Vec<usize>,
)
    ensures
        final(edges)@ == old(edges)@ + dep_links(text::seqs(keys@), ours, from, prefix@, text::seqs(deps@)).0,
        final(roots)@ == old(roots)@ + dep_links(text::seqs(keys@), ours, from, prefix@, text::seqs(deps@)).1,
        forall|i: int|
            old(edges)@.len() <= i < final(edges)@.len() ==> (#[trigger] final(edges)@[i]).0 == from
                && final(edges)@[i].1 < keys@.len(),
        forall|i: int|
            old(roots)@.len() <= i < final(roots)@.len() ==> #[trigger] final(roots)@[i] < keys@.len(),
{
    let ghost ks = text::seqs(keys@);
    let ghost ds = text::seqs(deps@);
    let ghost e0 = edges@;
    let ghost r0 = roots@;
    for j in 0..deps.len()
        invariant
            ks == text::seqs(keys@),
            ds == text::seqs(deps@),
            edges@ == e0 + dep_links(ks, ours, from, prefix@, ds.take(j as int)).0,
            roots@ == r0 + dep_links(ks, ours, from, prefix@, ds.take(j as int)).1,
            edges@.len() >= e0.len(),
            roots@.len() >= r0.len(),
            forall|i: int|
                e0.len() <= i < edges@.len() ==> (#[trigger] edges@[i]).0 == from && edges@[i].1
                    < keys@.len(),
            forall|i: int| r0.len() <= i < roots@.len() ==> #[trigger] roots@[i] < keys@.len(),
    {
        proof {
            assert(ds.take(j + 1).drop_last() =~= ds.take(j as int));
            assert(ds.take(j + 1).last() == deps@[j as int]@);
        }
        let ghost eb = edges@;
        let ghost rb = roots@;
        match resolve(keys, prefix, &deps[j]) {
            Some(to) => {
                if ours {
                    roots.push(to);
                    proof {
                        assert(roots@ =~= r0 + dep_links(ks, ours, from, prefix@, ds.take(j + 1)).1);
                        assert forall|i: int| r0.len() <= i < roots@.len() implies #[trigger] roots@[i]
                            < keys@.len() by {
                            if i < rb.len() {
                                assert(roots@[i] == rb[i]);
                            }
                        }
                    }
                } else {
                    edges.push((from, to));
                    proof {
                        assert(edges@ =~= e0 + dep_links(ks, ours, from, prefix@, ds.take(j + 1)).0);
                        assert forall|i: int| e0.len() <= i < edges@.len() implies (#[trigger] edges@[i]).0
                            == from && edges@[i].1 < keys@.len() by {
                            if i < eb.len() {
                                assert(edges@[i] == eb[i]);
                            }
                        }
                    }
                }
            },
            None => {},
        }
    }
    proof {
        assert(ds.take(ds.len() as int) =~= ds);
    }
}

/// The tree a `packages` map describes.
fn build(path: &str, entries: &Vec<(String, Value)>) -> (t: Tree)
    ensures
        npm_tree(path@, json::members_view(entries@), t),
{
    let ghost mv = json::members_view(entries@);
    let mut packages: Vec<Package> = Vec::new();
    let mut keys: Vec<Vec<char>> = Vec::new();
    let mut idx: Vec<usize> = Vec::new();
    for i in 0..entries.len()
        invariant
            mv == json::members_view(entries@),
            lock::package_views(packages@) == non_root(mv.take(i as int)).map_values(
                |e: (Seq<char>, JValue)| npm_package(e.0, e.1),
            ),
            text::seqs(keys@) == keys_of(non_root(mv.take(i as int))),
            idx@.len() == non_root(mv.take(i as int)).len(),
            forall|j: int|
                0 <= j < idx@.len() ==> #[trigger] idx@[j] < entries@.len() && mv[idx@[j] as int]
                    == non_root(mv.take(i as int))[j],
    {
        let ghost es = non_root(mv.take(i as int));
        proof {
            assert(mv.take(i + 1).drop_last() =~= mv.take(i as int));
            assert(mv.take(i + 1).last() == mv[i as int]);
        }
        if !entries[i].0.as_str().is_empty() {
            let ghost pb = packages@;
            let ghost kb = keys@;
            let ghost ib = idx@;
            let p = package_of(&entries[i].0, &entries[i].1);
            let kc = text::chars_of(entries[i].0.as_str());
            packages.push(p);
            keys.push(kc);
            idx.push(i);
            proof {
                let es2 = non_root(mv.take(i + 1));
                assert(mv[i as int] == (entries@[i as int].0@, json::jview(entries@[i as int].1)));
                assert(es2 == es.push(mv[i as int]));
                assert(lock::package_views(packages@) =~= lock::package_views(pb).push(p@));
                assert(es2.map_values(|e: (Seq<char>, JValue)| npm_package(e.0, e.1)) =~= es.map_values(
                    |e: (Seq<char>, JValue)| npm_package(e.0, e.1),
                ).push(npm_package(mv[i as int].0, mv[i as int].1)));
                assert(text::seqs(keys@) =~= text::seqs(kb).push(kc@));
                assert(keys_of(es2) =~= keys_of(es).push(mv[i as int].0));
                assert(lock::package_views(packages@) =~= es2.map_values(
                    |e: (Seq<char>, JValue)| npm_package(e.0, e.1),
                ));
                assert(text::seqs(keys@) =~= keys_of(es2));
                assert forall|j: int| 0 <= j < idx@.len() implies #[trigger] idx@[j] < entries@.len()
                    && mv[idx@[j] as int] == es2[j] by {
                    if j < ib.len() {
                        assert(idx@[j] == ib[j]);
                    }
                }
            }
        }
    }
    proof {
        assert(mv.take(entries@.len() as int) =~= mv);
    }
    let ghost es = non_root(mv);
    let ghost ks = keys_of(es);
    let n = packages.len();
    let mut edges: Vec<(usize, usize)> = Vec::new();
    let mut raw: Vec<usize> = Vec::new();
    let root_deps = match json::lookup(entries, "") {
        Some(v) => deps_list(v),
        None => deps_list(&Value::Null),
    };
    let none: Vec<char> = Vec::new();
    proof {
        assert(text::seqs(keys@) == ks);
        assert(none@ =~= seq![]);
        reveal_strlit("");
        assert(""@ =~= seq![]);
    }
    links_of(&keys, true, 0, &none, &root_deps, &mut edges, &mut raw);
    proof {
        assert(edges@ =~= seq![]) by {
            assert(dep_links(ks, true, 0, seq![], text::seqs(root_deps@)).0 =~= seq![]) by {
                lemma_ours_no_edges(ks, 0, seq![], text::seqs(root_deps@));
            }
        }
    }
    let ghost root_raw = raw@;
    let mut raw2: Vec<usize> = Vec::new();
    for k in 0..n
        invariant
            n == packages@.len(),
            n == keys@.len(),
            n == idx@.len(),
            text::seqs(keys@) == ks,
            ks == keys_of(es),
            es.len() == n,
            lock::package_views(packages@) == es.map_values(
                |e: (Seq<char>, JValue)| npm_package(e.0, e.1),
            ),
            forall|j: int| 0 <= j < idx@.len() ==> #[trigger] idx@[j] < entries@.len() && mv[idx@[j] as int] == es[j],
            mv == json::members_view(entries@),
            (edges@, raw2@) == all_links(es, k as int),
            forall|i: int| 0 <= i < edges@.len() ==> (#[trigger] edges@[i]).0 < n && edges@[i].1 < n,
            forall|i: int| 0 <= i < raw2@.len() ==> #[trigger] raw2@[i] < n,
    {
        let e = &entries[idx[k]];
        proof {
            assert(mv[idx@[k as int] as int] == es[k as int]);
            assert(es[k as int] == (e.0@, json::jview(e.1)));
            assert(ks[k as int] == keys@[k as int]@);
            assert(lock::package_views(packages@)[k as int] == npm_package(e.0@, json::jview(e.1)));
        }
        let deps = deps_list(&e.1);
        let ghost eb = edges@;
        let ghost rb = raw2@;
        links_of(&keys, packages[k].first_party, k, &keys[k], &deps, &mut edges, &mut raw2);
        proof {
            assert(edges@ =~= all_links(es, k + 1).0);
            assert(raw2@ =~= all_links(es, k + 1).1);
            assert forall|i: int| 0 <= i < edges@.len() implies (#[trigger] edges@[i]).0 < n && edges@[i].1 < n by {
                if i < eb.len() {
                    assert(edges@[i] == eb[i]);
                }
            }
            assert forall|i: int| 0 <= i < raw2@.len() implies #[trigger] raw2@[i] < n by {
                if i < rb.len() {
                    assert(raw2@[i] == rb[i]);
                }
            }
        }
    }
    let mut all = raw;
    let mut tail = raw2;
    all.append(&mut tail);
    let ghost allv = all@;
    let roots = lock::keep_roots(&all, &packages);
    let t = Tree {
        ecosystem: Ecosystem::Npm,
        source: text::owned(path),
        packages,
        edges,
        roots,
        records_edges: true,
        records_install_scripts: true,
    };
    proof {
        let pkgs = es.map_values(|e: (Seq<char>, JValue)| npm_package(e.0, e.1));
        assert(root_raw == root_links(mv));
        assert(allv == root_links(mv) + all_links(es, es.len() as int).1);
        assert forall|x: usize| #[trigger] t.roots@.contains(x) <==> (allv.contains(x) && x < pkgs.len()
            && !pkgs[x as int].first_party) by {
            if x < pkgs.len() {
                assert(lock::package_views(packages@)[x as int] == pkgs[x as int]);
            }
        }
    }
    t
}

proof fn lemma_ours_no_edges(keys: Seq<Seq<char>>, from: usize, prefix: Seq<char>, deps: Seq<Seq<char>>)
    ensures
        dep_links(keys, true, from, prefix, deps).0 =~= seq![],
    decreases deps.len(),
{
    if deps.len() > 0 {
        lemma_ours_no_edges(keys, from, prefix, deps.drop_last());
    }
}

fn digits_from(u: &Vec<char>, p: usize) -> (q: usize)
    requires
        p <= u@.len(),
    ensures
        q == json::digits_end(u@, p as int),
        p <= q <= u@.len(),
{
    let mut q = p;
    while q < u.len() && '0' <= u[q] && u[q] <= '9'
        invariant
            p <= q <= u@.len(),
            json::digits_end(u@, q as int) == json::digits_end(u@, p as int),
        decreases u@.len() - q,
    {
        q = q + 1;
    }
    q
}

/// Past this an exponent only decides which side of two a number is on.
const EXP_CAP: u128 = 1180591620717411303424;

/// The value of the digits of `d`, or `EXP_CAP` when it is larger.
fn capped_value(d: &Vec<char>) -> (v: u128)
    ensures
        v == if text::decimal_value(d@) < EXP_CAP {
            text::decimal_value(d@)
        } else {
            EXP_CAP as nat
        },
{
    let mut v: u128 = 0;
    for i in 0..d.len()
        invariant
            v == if text::decimal_value(d@.take(i as int)) < EXP_CAP {
                text::decimal_value(d@.take(i as int))
            } else {
                EXP_CAP as nat
            },
    {
        proof {
            assert(d@.take(i + 1).drop_last() =~= d@.take(i as int));
            assert(d@.take(i + 1).last() == d@[i as int]);
        }
        let c = d[i];
        let digit: u128 = if '0' <= c && c <= '9' {
            (c as u128) - 48
        } else {
            0
        };
        if v >= EXP_CAP {
            v = EXP_CAP;
        } else {
            let next: u128 = v * 10 + digit;
            v = if next >= EXP_CAP {
                EXP_CAP
            } else {
                next
            };
        }
    }
    proof {
        assert(d@.take(d@.len() as int) =~= d@);
    }
    v
}

/// Whether a JSON number is at least two.
fn two_or_more(t: &str) -> (r: bool)
    ensures
        r == at_least_two(t@),
{
    let c = text::chars_of(t);
    let neg = c.len() > 0 && c[0] == '-';
    let u = if neg {
        text::slice(&c, 1, c.len())
    } else {
        text::slice(&c, 0, c.len())
    };
    proof {
        assert(c@.subrange(1, c@.len() as int) =~= c@.skip(1));
        assert(c@.subrange(0, c@.len() as int) =~= c@);
    }
    let i_end = digits_from(&u, 0);
    let dot = i_end < u.len() && u[i_end] == '.';
    let f_end = if dot {
        digits_from(&u, i_end + 1)
    } else {
        i_end
    };
    let frac_len: usize = if dot {
        f_end - i_end - 1
    } else {
        0
    };
    let mut mant = text::slice(&u, 0, i_end);
    if dot {
        let mut frac = text::slice(&u, i_end + 1, f_end);
        mant.append(&mut frac);
    }
    proof {
        assert(u@.subrange(0, i_end as int) =~= u@.take(i_end as int));
    }
    let rest = text::slice(&u, f_end, u.len());
    proof {
        assert(u@.subrange(f_end as int, u@.len() as int) =~= u@.skip(f_end as int));
    }
    let e_neg = rest.len() > 1 && rest[1] == '-';
    let e_digits = if rest.len() > 1 && (rest[1] == '-' || rest[1] == '+') {
        text::slice(&rest, 2, rest.len())
    } else if rest.len() > 0 {
        text::slice(&rest, 1, rest.len())
    } else {
        Vec::new()
    };
    proof {
        if rest@.len() > 1 && (rest@[1] == '-' || rest@[1] == '+') {
            assert(rest@.subrange(2, rest@.len() as int) =~= rest@.skip(2));
        } else if rest@.len() > 0 {
            assert(rest@.subrange(1, rest@.len() as int) =~= rest@.skip(1));
        }
    }
    let mag = if rest.len() == 0 {
        0
    } else {
        capped_value(&e_digits)
    };
    let mut lead: usize = 0;
    while lead < mant.len() && mant[lead] == '0'
        invariant
            lead <= mant@.len(),
            first_nonzero(mant@, lead as int) == first_nonzero(mant@, 0),
        decreases mant@.len() - lead,
    {
        lead = lead + 1;
    }
    if neg || lead >= mant.len() {
        return false;
    }
    let base: i128 = (mant.len() - lead - 1) as i128 - frac_len as i128;
    let power: i128 = if e_neg {
        base - mag as i128
    } else {
        base + mag as i128
    };
    proof {
        let exp: int = if rest@.len() == 0 {
            0
        } else if e_neg {
            -(text::decimal_value(e_digits@) as int)
        } else {
            text::decimal_value(e_digits@) as int
        };
        let sp = (mant@.len() - lead - 1) + exp - frac_len;
        if rest@.len() > 0 && text::decimal_value(e_digits@) >= EXP_CAP {
            assert(sp >= 1 <==> power >= 1);
            assert(sp == 0 <==> power == 0);
        }
    }
    power >= 1 || (power == 0 && mant[lead] >= '2')
}

/// Read a package-lock.json.
pub fn read(path: &str, src: &str) -> (r: Result<Tree>)
    requires
        src@.len() < u32::MAX,
    ensures
        read_spec(path@, src@, r),
{
    let doc = json::parse(src)?;
    match doc.get("lockfileVersion") {
        Some(Value::Number(n)) => {
            if !two_or_more(n.as_str()) {
                let mut msg = text::owned(path);
                text::append(&mut msg, ": lockfileVersion ");
                text::append(&mut msg, n.as_str());
                text::append(
                    &mut msg,
                    " is not supported; stranger reads 2 and 3. Run `npm install` with npm 7 or newer to upgrade the file.",
                );
                return Err(Error::usage(msg.as_str()));
            }
        },
        _ => {
            let mut msg = text::owned(path);
            text::append(&mut msg, ": no lockfileVersion field; this does not look like a package-lock.json");
            return Err(Error::usage(msg.as_str()));
        },
    }
    match doc.get("packages") {
        Some(Value::Object(entries)) => {
            proof {
                json::lemma_jview_object(*entries);
            }
            Ok(build(path, entries))
        },
        _ => {
            let mut msg = text::owned(path);
            text::append(&mut msg, ": no `packages` map");
            Err(Error::usage(msg.as_str()))
        },
    }
}

} // verus!
