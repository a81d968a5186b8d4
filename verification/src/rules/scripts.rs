//! Packages that run code when you install them.
//!
//! `npm install` runs a dependency's `preinstall`, `install` and `postinstall`
//! hooks as part of installing it. The lockfile records only that a hook
//! exists — not its body, not which hook — so the wording never implies more.
use crate::lock::{Package, Tree};
use crate::rules::{self, Finding, FindingView, Order, Rule, Severity};
use crate::text;
use vstd::prelude::*;

verus! {

pub open spec fn script_detail() -> Seq<char> {
    "runs code at install time · lockfile records the flag, not the script"@
}

/// One finding per third-party entry with an install hook, in tree order.
pub open spec fn script_hits(p: Seq<Package>) -> Seq<FindingView>
    decreases p.len(),
{
    if p.len() == 0 {
        seq![]
    } else {
        let rest = script_hits(p.drop_last());
        let q = p.last();
        if q.install_script && !q.first_party {
            rest.push(
                rules::finding(
                    Rule::InstallScript,
                    Severity::High,
                    q.name@,
                    q.version@,
                    script_detail(),
                ),
            )
        } else {
            rest
        }
    }
}

/// `f` is the hit of package `q`: third party, with an install hook.
spec fn hit_of(f: FindingView, q: Package) -> bool {
    &&& q.install_script
    &&& !q.first_party
    &&& f.package == q.name@
    &&& f.version == q.version@
    &&& f.rule == Rule::InstallScript
}

/// `f` names package `q`.
spec fn names(f: FindingView, q: Package) -> bool {
    f.package == q.name@ && f.version == q.version@
}

/// Every hit names a third-party package that has an install hook.
proof fn lemma_hit_source(p: Seq<Package>, k: int)
    requires
        0 <= k < script_hits(p).len(),
    ensures
        exists|i: int| 0 <= i < p.len() && #[trigger] hit_of(script_hits(p)[k], p[i]),
    decreases p.len(),
{
    let r = p.drop_last();
    let q = p.last();
    if q.install_script && !q.first_party && k == script_hits(r).len() {
        assert(hit_of(script_hits(p)[k], p[p.len() - 1]));
    } else {
        assert(script_hits(p)[k] == script_hits(r)[k]);
        lemma_hit_source(r, k);
        let i = choose|i: int| 0 <= i < r.len() && #[trigger] hit_of(script_hits(r)[k], r[i]);
        assert(p[i] == r[i]);
        assert(hit_of(script_hits(p)[k], p[i]));
    }
}

/// Every third-party package with an install hook has its hit.
proof fn lemma_hit_present(p: Seq<Package>, i: int)
    requires
        0 <= i < p.len(),
        p[i].install_script,
        !p[i].first_party,
    ensures
        exists|k: int| 0 <= k < script_hits(p).len() && #[trigger] names(script_hits(p)[k], p[i]),
    decreases p.len(),
{
    let r = p.drop_last();
    if i == p.len() - 1 {
        assert(names(script_hits(p)[script_hits(r).len() as int], p[i]));
    } else {
        assert(r[i] == p[i]);
        lemma_hit_present(r, i);
        let k = choose|k: int| 0 <= k < script_hits(r).len() && #[trigger] names(script_hits(r)[k], r[i]);
        assert(script_hits(p)[k] == script_hits(r)[k]);
        assert(names(script_hits(p)[k], p[i]));
    }
}

/// Every finding is an InstallScript finding naming a third-party package
/// that has an install hook, and every such package is named by one.
#[verifier::opaque]
pub open spec fn scripts_sourced(p: Seq<Package>, v: Seq<FindingView>) -> bool {
    &&& forall|k: int|
        #![trigger v[k]]
        0 <= k < v.len() ==> v[k].rule == Rule::InstallScript && exists|i: int|
            0 <= i < p.len() && (#[trigger] p[i]).install_script && !p[i].first_party && v[k].package
                == p[i].name@ && v[k].version == p[i].version@
    &&& forall|i: int|
        0 <= i < p.len() && (#[trigger] p[i]).install_script && !p[i].first_party ==> exists|k: int|
            0 <= k < v.len() && v[k].package == p[i].name@ && v[k].version == p[i].version@
}

/// Every third-party package with an install hook, sorted by name and then
/// version. One finding per entry, not per name: a duplicated package is
/// installed twice and the hook runs twice.
pub fn scan(tree: &Tree) -> (out: Vec<Finding>)
    ensures
        rules::stable_sort_of(Order::PackageVersion, rules::views(out@), script_hits(tree.packages@)),
        scripts_sourced(tree.packages@, rules::views(out@)),
{
    let mut hits: Vec<Finding> = Vec::new();
    for i in 0..tree.packages.len()
        invariant
            rules::views(hits@) == script_hits(tree.packages@.take(i as int)),
    {
        let p = &tree.packages[i];
        proof {
            assert(tree.packages@.take(i + 1).drop_last() =~= tree.packages@.take(i as int));
        }
        if p.install_script && !p.first_party {
            let f = Finding {
                rule: Rule::InstallScript,
                severity: Severity::High,
                package: p.name.clone(),
                version: p.version.clone(),
                detail: text::owned(
                    "runs code at install time · lockfile records the flag, not the script",
                ),
            };
            let ghost old_hits = hits@;
            hits.push(f);
            proof {
                assert(rules::views(hits@) =~= rules::views(old_hits).push(f@));
            }
        }
    }
    proof {
        assert(tree.packages@.take(tree.packages@.len() as int) =~= tree.packages@);
    }
    let out = rules::sort_findings(hits, Order::PackageVersion);
    proof {
        let p = tree.packages@;
        let v = rules::views(out@);
        rules::lemma_sort_adds_nothing(Order::PackageVersion, v, script_hits(p));
        rules::lemma_sort_keeps_all(Order::PackageVersion, v, script_hits(p));
        assert forall|k: int| #![trigger v[k]] 0 <= k < v.len() implies v[k].rule == Rule::InstallScript
            && exists|i: int|
            0 <= i < p.len() && (#[trigger] p[i]).install_script && !p[i].first_party && v[k].package
                == p[i].name@ && v[k].version == p[i].version@ by {
            assert(script_hits(p).contains(v[k]));
            let j = choose|j: int| 0 <= j < script_hits(p).len() && script_hits(p)[j] == v[k];
            lemma_hit_source(p, j);
            let i = choose|i: int| 0 <= i < p.len() && #[trigger] hit_of(script_hits(p)[j], p[i]);
            assert(p[i].install_script);
        }
        assert forall|i: int|
            0 <= i < p.len() && (#[trigger] p[i]).install_script && !p[i].first_party implies exists|k: int|
                0 <= k < v.len() && v[k].package == p[i].name@ && v[k].version == p[i].version@ by {
            lemma_hit_present(p, i);
            let j = choose|j: int| 0 <= j < script_hits(p).len() && #[trigger] names(script_hits(p)[j], p[i]);
            assert(v.contains(script_hits(p)[j]));
            let k = choose|k: int| 0 <= k < v.len() && v[k] == script_hits(p)[j];
        }
        reveal(scripts_sourced);
    }
    out
}

} // verus!
