//! Dependencies whose whole job is one expression.
//!
//! It is not size: a lockfile entry records no unpacked size, no file count,
//! no line count. So this rule recognises names, using two signals that are in
//! the file: a hand-written list of well-known micro-packages, and a name that
//! reads as a predicate (`is-…`, `has-…`, scope stripped) and resolves no
//! dependencies of its own. A hit is worth twenty seconds of attention, not a
//! verdict, and it is Low for that reason.
use crate::lock::{self, Package, Tree};
use crate::rules::{self, Finding, FindingView, Order, Rule, Severity};
use crate::text;
use vstd::prelude::*;

verus! {

/// The hand-written list, byte-sorted.
pub const KNOWN: [&'static str; 24] = [
    "array-flatten",
    "code-point-at",
    "es-errors",
    "gopd",
    "has-flag",
    "hasown",
    "inherits",
    "is-arrayish",
    "is-buffer",
    "is-even",
    "is-extendable",
    "is-negative-zero",
    "is-npm",
    "is-number",
    "is-obj",
    "is-odd",
    "is-plain-obj",
    "is-windows",
    "isarray",
    "isobject",
    "left-pad",
    "number-is-nan",
    "object-assign",
    "pad-left",
];

/// `bare` is on the hand-written list.
pub open spec fn is_known(bare: Seq<char>) -> bool {
    exists|i: int| 0 <= i < KNOWN@.len() && (#[trigger] KNOWN@[i])@ == bare
}

pub open spec fn known_detail() -> Seq<char> {
    "one expression, one publisher · inlining it removes an account from your build"@
}

pub open spec fn predicate_detail() -> Seq<char> {
    "predicate-shaped, resolves nothing · size not measured, see rule docs"@
}

/// The name with any scope stripped: what follows the last `/`.
pub open spec fn bare_name(name: Seq<char>) -> Seq<char> {
    lock::after_last_slash(name)
}

/// The finding a package earns, given how many edges leave it.
pub open spec fn trivial_hit(q: Package, out_degree: nat) -> Option<FindingView> {
    let bare = bare_name(q.name@);
    if q.first_party {
        None
    } else if is_known(bare) {
        Some(rules::finding(Rule::Trivial, Severity::Low, q.name@, q.version@, known_detail()))
    } else if out_degree == 0 && ("is-"@.is_prefix_of(bare) || "has-"@.is_prefix_of(bare)) {
        Some(rules::finding(Rule::Trivial, Severity::Low, q.name@, q.version@, predicate_detail()))
    } else {
        None
    }
}

/// The findings of the first `p.len()` packages, in tree order.
pub open spec fn trivial_hits(p: Seq<Package>, edges: Seq<(usize, usize)>) -> Seq<FindingView>
    decreases p.len(),
{
    if p.len() == 0 {
        seq![]
    } else {
        let rest = trivial_hits(p.drop_last(), edges);
        match trivial_hit(p.last(), lock::count_from(edges, p.len() - 1)) {
            Some(f) => rest.push(f),
            None => rest,
        }
    }
}

/// `s` with each finding dropped that repeats the package and version of the
/// one before it.
pub open spec fn dedup_same(s: Seq<FindingView>) -> Seq<FindingView>
    decreases s.len(),
{
    if s.len() == 0 {
        s
    } else {
        let d = dedup_same(s.drop_last());
        let n = s.len() as int;
        if n >= 2 && s[n - 2].package == s[n - 1].package && s[n - 2].version == s[n - 1].version {
            d
        } else {
            d.push(s[n - 1])
        }
    }
}

proof fn lemma_dedup_last(s: Seq<FindingView>)
    requires
        s.len() > 0,
    ensures
        dedup_same(s).len() > 0,
        dedup_same(s).last().package == s.last().package,
        dedup_same(s).last().version == s.last().version,
    decreases s.len(),
{
    let n = s.len() as int;
    if n >= 2 && s[n - 2].package == s[n - 1].package && s[n - 2].version == s[n - 1].version {
        lemma_dedup_last(s.drop_last());
    }
}

/// Package `i` earns a finding: third party, and on the list or shaped like
/// a predicate with no dependency of its own.
spec fn earns(p: Seq<Package>, edges: Seq<(usize, usize)>, i: int) -> bool {
    let bare = bare_name(p[i].name@);
    &&& !p[i].first_party
    &&& is_known(bare) || (lock::count_from(edges, i) == 0 && ("is-"@.is_prefix_of(bare)
        || "has-"@.is_prefix_of(bare)))
}

/// `f` names package `q`.
spec fn names(f: FindingView, q: Package) -> bool {
    f.package == q.name@ && f.version == q.version@
}

/// Every hit is a Trivial finding naming a package that earns it.
proof fn lemma_hit_source(p: Seq<Package>, edges: Seq<(usize, usize)>, k: int)
    requires
        0 <= k < trivial_hits(p, edges).len(),
    ensures
        trivial_hits(p, edges)[k].rule == Rule::Trivial,
        exists|i: int| 0 <= i < p.len() && #[trigger] names(trivial_hits(p, edges)[k], p[i]) && earns(p, edges, i),
    decreases p.len(),
{
    let r = p.drop_last();
    let n = p.len() - 1;
    let hit = trivial_hit(p.last(), lock::count_from(edges, n));
    if hit is Some && k == trivial_hits(r, edges).len() {
        assert(p[n] == p.last());
        assert(names(trivial_hits(p, edges)[k], p[n]));
    } else {
        assert(trivial_hits(p, edges)[k] == trivial_hits(r, edges)[k]);
        lemma_hit_source(r, edges, k);
        let i = choose|i: int|
            0 <= i < r.len() && #[trigger] names(trivial_hits(r, edges)[k], r[i]) && earns(r, edges, i);
        assert(p[i] == r[i]);
        assert(names(trivial_hits(p, edges)[k], p[i]));
    }
}

/// Every package that earns a finding has its hit.
proof fn lemma_hit_present(p: Seq<Package>, edges: Seq<(usize, usize)>, i: int)
    requires
        0 <= i < p.len(),
        earns(p, edges, i),
    ensures
        exists|k: int| 0 <= k < trivial_hits(p, edges).len() && #[trigger] names(trivial_hits(p, edges)[k], p[i]),
    decreases p.len(),
{
    let r = p.drop_last();
    let n = p.len() - 1;
    if i == n {
        assert(p[n] == p.last());
        assert(names(trivial_hits(p, edges)[trivial_hits(r, edges).len() as int], p[i]));
    } else {
        assert(r[i] == p[i]);
        lemma_hit_present(r, edges, i);
        let k = choose|k: int| 0 <= k < trivial_hits(r, edges).len() && #[trigger] names(trivial_hits(r, edges)[k], r[i]);
        assert(trivial_hits(p, edges)[k] == trivial_hits(r, edges)[k]);
        assert(names(trivial_hits(p, edges)[k], p[i]));
    }
}

/// Dropping repeats keeps only findings that were there.
proof fn lemma_dedup_from(s: Seq<FindingView>, k: int)
    requires
        0 <= k < dedup_same(s).len(),
    ensures
        s.contains(dedup_same(s)[k]),
    decreases s.len(),
{
    let r = s.drop_last();
    let d = dedup_same(r);
    if k < d.len() {
        assert(dedup_same(s)[k] == d[k]);
        lemma_dedup_from(r, k);
        let j = choose|j: int| 0 <= j < r.len() && r[j] == d[k];
        assert(s[j] == r[j]);
    } else {
        assert(dedup_same(s)[k] == s[s.len() - 1]);
    }
}

/// Dropping repeats keeps one finding for every package and version.
proof fn lemma_dedup_keeps(s: Seq<FindingView>, j: int)
    requires
        0 <= j < s.len(),
    ensures
        exists|k: int|
            0 <= k < dedup_same(s).len() && (#[trigger] dedup_same(s)[k]).package == s[j].package
                && dedup_same(s)[k].version == s[j].version,
    decreases s.len(),
{
    let r = s.drop_last();
    let d = dedup_same(r);
    let n = s.len() as int;
    let repeat = n >= 2 && s[n - 2].package == s[n - 1].package && s[n - 2].version == s[n - 1].version;
    if j < n - 1 {
        assert(r[j] == s[j]);
        lemma_dedup_keeps(r, j);
        let k = choose|k: int|
            0 <= k < d.len() && (#[trigger] d[k]).package == r[j].package && d[k].version == r[j].version;
        assert(dedup_same(s)[k] == d[k]);
    } else if repeat {
        assert(r[n - 2] == s[n - 2]);
        lemma_dedup_keeps(r, n - 2);
        let k = choose|k: int|
            0 <= k < d.len() && (#[trigger] d[k]).package == r[n - 2].package && d[k].version == r[n
                - 2].version;
        assert(dedup_same(s)[k] == d[k]);
    } else {
        assert(dedup_same(s)[d.len() as int] == s[n - 1]);
    }
}

/// Whether `bare` is on the hand-written list.
fn known(bare: &[char]) -> (r: bool)
    ensures
        r == is_known(bare@),
{
    let list = KNOWN;
    for i in 0..list.len()
        invariant
            list@ == KNOWN@,
            forall|j: int| 0 <= j < i ==> (#[trigger] KNOWN@[j])@ != bare@,
    {
        let name = text::chars_of(list[i]);
        if text::same_chars(&name, bare) {
            return true;
        }
    }
    false
}

/// How many edges leave every package.
fn out_degree(tree: &Tree) -> (deg: Vec<u32>)
    requires
        tree.edges_in_range(),
        tree.edges@.len() <= u32::MAX,
    ensures
        deg@.len() == tree.packages@.len(),
        forall|i: int|
            0 <= i < deg@.len() ==> #[trigger] deg@[i] == lock::count_from(tree.edges@, i),
{
    let mut deg: Vec<u32> = Vec::new();
    for i in 0..tree.packages.len()
        invariant
            deg@.len() == i,
            forall|x: int| 0 <= x < i ==> #[trigger] deg@[x] == 0,
    {
        deg.push(0);
    }
    let n = tree.packages.len();
    for e in 0..tree.edges.len()
        invariant
            tree.edges_in_range(),
            n == tree.packages@.len(),
            deg@.len() == n,
            tree.edges@.len() <= u32::MAX,
            forall|x: int|
                0 <= x < n ==> #[trigger] deg@[x] == lock::count_from(
                    tree.edges@.take(e as int),
                    x,
                ),
            forall|x: int| 0 <= x < n ==> #[trigger] deg@[x] <= e,
    {
        let from = tree.edges[e].0;
        proof {
            assert(tree.edges@.take(e + 1).drop_last() =~= tree.edges@.take(e as int));
            assert(tree.edges@[e as int].0 < n);
        }
        let cur = deg[from];
        deg.set(from, cur + 1);
    }
    proof {
        assert(tree.edges@.take(tree.edges@.len() as int) =~= tree.edges@);
    }
    deg
}

/// `sorted` with repeats of one package at one version dropped, the first
/// copy kept.
fn dedup(sorted: Vec<Finding>) -> (out: Vec<Finding>)
    ensures
        rules::views(out@) == dedup_same(rules::views(sorted@)),
{
    let ghost orig = rules::views(sorted@);
    let n = sorted.len();
    let mut rest = sorted;
    let mut out: Vec<Finding> = Vec::new();
    let mut k: usize = 0;
    proof {
        assert(rules::views(rest@) =~= orig.subrange(0, n as int));
    }
    while k < n
        invariant
            k <= n,
            orig.len() == n,
            rules::views(rest@) == orig.subrange(k as int, n as int),
            rules::views(out@) == dedup_same(orig.take(k as int)),
        decreases n - k,
    {
        proof {
            assert(rules::views(rest@).len() == rest@.len());
            assert(rules::views(rest@)[0] == rest@[0]@);
            assert(orig.subrange(k as int, n as int)[0] == orig[k as int]);
        }
        let ghost old_rest = rest@;
        let x = rest.remove(0);
        proof {
            assert(rest@ =~= old_rest.subrange(1, old_rest.len() as int));
            assert forall|i: int| 0 <= i < rest@.len() implies #[trigger] rules::views(rest@)[i]
                == orig.subrange(k + 1, n as int)[i] by {
                assert(rules::views(rest@)[i] == rest@[i]@);
                assert(rest@[i] == old_rest[i + 1]);
                assert(rules::views(old_rest)[i + 1] == old_rest[i + 1]@);
            }
            assert(rules::views(rest@) =~= orig.subrange(k + 1, n as int));
            let t = orig.take(k + 1);
            assert(t.drop_last() =~= orig.take(k as int));
            if k > 0 {
                lemma_dedup_last(orig.take(k as int));
                assert(orig.take(k as int).last() == orig[k - 1]);
                assert(t[k - 1] == orig[k - 1]);
            }
        }
        let repeat = if out.len() > 0 {
            let last = out.len() - 1;
            proof {
                assert(rules::views(out@)[last as int] == out@[last as int]@);
            }
            text::same(out[last].package.as_str(), x.package.as_str()) && text::same(
                out[last].version.as_str(),
                x.version.as_str(),
            )
        } else {
            false
        };
        if !repeat {
            let ghost old_out = out@;
            out.push(x);
            proof {
                assert(rules::views(out@) =~= rules::views(old_out).push(x@));
            }
        }
        k = k + 1;
    }
    proof {
        assert(orig.take(n as int) =~= orig);
    }
    out
}

/// Every finding is a Trivial finding naming a third-party package that is on
/// the list, or is shaped like a predicate (`is-…`, `has-…`) and has no edge
/// leaving it; and every such package is named by one.
#[verifier::opaque]
pub open spec fn trivial_sourced(p: Seq<Package>, edges: Seq<(usize, usize)>, v: Seq<FindingView>) -> bool {
    &&& forall|k: int|
        #![trigger v[k]]
        0 <= k < v.len() ==> v[k].rule == Rule::Trivial && exists|i: int|
            0 <= i < p.len() && !(#[trigger] p[i]).first_party && v[k].package == p[i].name@
                && v[k].version == p[i].version@ && (is_known(bare_name(p[i].name@)) || (
            lock::count_from(edges, i) == 0 && ("is-"@.is_prefix_of(bare_name(p[i].name@))
                || "has-"@.is_prefix_of(bare_name(p[i].name@)))))
    &&& forall|i: int|
        0 <= i < p.len() && !(#[trigger] p[i]).first_party && (is_known(bare_name(p[i].name@)) || (
        lock::count_from(edges, i) == 0 && ("is-"@.is_prefix_of(bare_name(p[i].name@))
            || "has-"@.is_prefix_of(bare_name(p[i].name@))))) ==> exists|k: int|
            0 <= k < v.len() && v[k].package == p[i].name@ && v[k].version == p[i].version@
}

/// Every third-party package on the list or shaped like a predicate with no
/// dependencies, sorted by name and version, one finding per name and
/// version.
pub fn scan(tree: &Tree) -> (out: Vec<Finding>)
    requires
        tree.edges_in_range(),
        tree.edges@.len() <= u32::MAX,
    ensures
        exists|s: Seq<FindingView>|
            rules::stable_sort_of(Order::PackageVersion, s, trivial_hits(tree.packages@, tree.edges@))
                && rules::views(out@) == dedup_same(s),
        trivial_sourced(tree.packages@, tree.edges@, rules::views(out@)),
{
    let degree = out_degree(tree);
    let is_prefix = text::chars_of("is-");
    let has_prefix = text::chars_of("has-");
    let mut hits: Vec<Finding> = Vec::new();
    for i in 0..tree.packages.len()
        invariant
            degree@.len() == tree.packages@.len(),
            forall|x: int|
                0 <= x < degree@.len() ==> #[trigger] degree@[x] == lock::count_from(
                    tree.edges@,
                    x,
                ),
            is_prefix@ == "is-"@,
            has_prefix@ == "has-"@,
            rules::views(hits@) == trivial_hits(tree.packages@.take(i as int), tree.edges@),
    {
        let p = &tree.packages[i];
        proof {
            assert(tree.packages@.take(i + 1).drop_last() =~= tree.packages@.take(i as int));
            assert(tree.packages@.take(i + 1).last() == tree.packages@[i as int]);
        }
        if !p.first_party {
            let name = text::chars_of(p.name.as_str());
            let bare = lock::after_last_slash_of(&name, name.len());
            proof {
                assert(name@.subrange(0, name@.len() as int) =~= name@);
            }
            let found = if known(&bare) {
                Some(
                    text::owned(
                        "one expression, one publisher · inlining it removes an account from your build",
                    ),
                )
            } else if degree[i] == 0 && (text::starts_with(&bare, &is_prefix) || text::starts_with(
                &bare,
                &has_prefix,
            )) {
                Some(
                    text::owned(
                        "predicate-shaped, resolves nothing · size not measured, see rule docs",
                    ),
                )
            } else {
                None
            };
            match found {
                Some(detail) => {
                    let f = Finding {
                        rule: Rule::Trivial,
                        severity: Severity::Low,
                        package: p.name.clone(),
                        version: p.version.clone(),
                        detail,
                    };
                    proof {
                        assert(trivial_hit(*p, lock::count_from(tree.edges@, i as int)) == Some(
                            f@,
                        ));
                    }
                    let ghost old_hits = hits@;
                    hits.push(f);
                    proof {
                        assert(rules::views(hits@) =~= rules::views(old_hits).push(f@));
                    }
                },
                None => {},
            }
        }
    }
    proof {
        assert(tree.packages@.take(tree.packages@.len() as int) =~= tree.packages@);
    }
    let sorted = rules::sort_findings(hits, Order::PackageVersion);
    let out = dedup(sorted);
    proof {
        let p = tree.packages@;
        let e = tree.edges@;
        let h = trivial_hits(p, e);
        let s = rules::views(sorted@);
        let v = rules::views(out@);
        rules::lemma_sort_adds_nothing(Order::PackageVersion, s, h);
        rules::lemma_sort_keeps_all(Order::PackageVersion, s, h);
        assert forall|k: int| #![trigger v[k]] 0 <= k < v.len() implies v[k].rule == Rule::Trivial
            && exists|i: int|
            0 <= i < p.len() && !(#[trigger] p[i]).first_party && v[k].package == p[i].name@
                && v[k].version == p[i].version@ && (is_known(bare_name(p[i].name@)) || (
            lock::count_from(e, i) == 0 && ("is-"@.is_prefix_of(bare_name(p[i].name@))
                || "has-"@.is_prefix_of(bare_name(p[i].name@))))) by {
            lemma_dedup_from(s, k);
            let a = choose|a: int| 0 <= a < s.len() && s[a] == v[k];
            assert(h.contains(s[a]));
            let j = choose|j: int| 0 <= j < h.len() && h[j] == s[a];
            lemma_hit_source(p, e, j);
            let i = choose|i: int| 0 <= i < p.len() && #[trigger] names(h[j], p[i]) && earns(p, e, i);
            assert(!p[i].first_party);
        }
        assert forall|i: int|
            0 <= i < p.len() && !(#[trigger] p[i]).first_party && (is_known(bare_name(p[i].name@)) || (
            lock::count_from(e, i) == 0 && ("is-"@.is_prefix_of(bare_name(p[i].name@))
                || "has-"@.is_prefix_of(bare_name(p[i].name@))))) implies exists|k: int|
            0 <= k < v.len() && v[k].package == p[i].name@ && v[k].version == p[i].version@ by {
            assert(earns(p, e, i));
            lemma_hit_present(p, e, i);
            let j = choose|j: int| 0 <= j < h.len() && #[trigger] names(h[j], p[i]);
            assert(s.contains(h[j]));
            let a = choose|a: int| 0 <= a < s.len() && s[a] == h[j];
            lemma_dedup_keeps(s, a);
            let k = choose|k: int|
                0 <= k < v.len() && (#[trigger] v[k]).package == s[a].package && v[k].version == s[a].version;
        }
        reveal(trivial_sourced);
    }
    out
}

} // verus!
