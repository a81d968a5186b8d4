//! Requirements that do not name a version.
//!
//! An unpinned requirement is not a vulnerability. It is the mechanism by
//! which somebody else's vulnerability reaches you without anybody changing a
//! file. Only fires on PyPI: npm, cargo and go record a resolved version, so
//! every entry they produce is exact and there is nothing here to say.
use crate::lock::{Ecosystem, Package, Pin, Tree};
use crate::rules::{self, Finding, FindingView, Order, Rule, Severity};
use crate::text;
use vstd::prelude::*;

verus! {

pub open spec fn unconstrained_detail() -> Seq<char> {
    "no version specifier · resolves to whatever is newest at install time"@
}

pub open spec fn range_tail() -> Seq<char> {
    " · a range, so the file does not say what installs"@
}

pub open spec fn compatible_tail() -> Seq<char> {
    " · capped at the major, still floats below the cap"@
}

/// The finding a package's pin earns, if any. Nothing above High: an
/// unpinned dependency is a way to be compromised later, not evidence of
/// being compromised now.
pub open spec fn pin_hit(q: Package) -> Option<FindingView> {
    match q.pinned {
        Pin::Exact => None,
        Pin::Unconstrained => Some(
            rules::finding(
                Rule::Pinning,
                Severity::High,
                q.name@,
                q.version@,
                unconstrained_detail(),
            ),
        ),
        Pin::Range(spec) => Some(
            rules::finding(Rule::Pinning, Severity::Medium, q.name@, q.version@, spec@ + range_tail()),
        ),
        Pin::Compatible(spec) => Some(
            rules::finding(
                Rule::Pinning,
                Severity::Low,
                q.name@,
                q.version@,
                spec@ + compatible_tail(),
            ),
        ),
    }
}

/// The findings of every package, in tree order.
pub open spec fn pin_hits(p: Seq<Package>) -> Seq<FindingView>
    decreases p.len(),
{
    if p.len() == 0 {
        seq![]
    } else {
        let rest = pin_hits(p.drop_last());
        match pin_hit(p.last()) {
            Some(f) => rest.push(f),
            None => rest,
        }
    }
}

/// Every PyPI requirement that is not an exact pin, sorted by name. Nothing
/// on any other ecosystem.
pub fn scan(tree: &Tree) -> (out: Vec<Finding>)
    ensures
        tree.ecosystem != Ecosystem::PyPi ==> out@.len() == 0,
        tree.ecosystem == Ecosystem::PyPi ==> rules::stable_sort_of(
            Order::Package,
            rules::views(out@),
            pin_hits(tree.packages@),
        ),
{
    if tree.ecosystem != Ecosystem::PyPi {
        return Vec::new();
    }
    let mut hits: Vec<Finding> = Vec::new();
    for i in 0..tree.packages.len()
        invariant
            rules::views(hits@) == pin_hits(tree.packages@.take(i as int)),
    {
        let p = &tree.packages[i];
        proof {
            assert(tree.packages@.take(i + 1).drop_last() =~= tree.packages@.take(i as int));
        }
        let found = match &p.pinned {
            Pin::Exact => None,
            Pin::Unconstrained => Some(
                (
                    Severity::High,
                    text::owned(
                        "no version specifier · resolves to whatever is newest at install time",
                    ),
                ),
            ),
            Pin::Range(spec) => {
                let mut d = text::owned(spec.as_str());
                text::append(&mut d, " · a range, so the file does not say what installs");
                Some((Severity::Medium, d))
            },
            Pin::Compatible(spec) => {
                let mut d = text::owned(spec.as_str());
                text::append(&mut d, " · capped at the major, still floats below the cap");
                Some((Severity::Low, d))
            },
        };
        match found {
            Some((severity, detail)) => {
                let f = Finding {
                    rule: Rule::Pinning,
                    severity,
                    package: p.name.clone(),
                    version: p.version.clone(),
                    detail,
                };
                proof {
                    assert(pin_hit(*p) == Some(f@));
                }
                let ghost old_hits = hits@;
                hits.push(f);
                proof {
                    assert(rules::views(hits@) =~= rules::views(old_hits).push(f@));
                }
            },
            None => {},
        }
    }
    proof {
        assert(tree.packages@.take(tree.packages@.len() as int) =~= tree.packages@);
    }
    rules::sort_findings(hits, Order::Package)
}

} // verus!
