//! Names that look like a package a model invented.
//!
//! Edit distance on its own is not a rule: a registry the size of npm holds
//! thousands of legitimate siblings two edits apart. The clause that separates
//! them is not about spelling at all. A hallucinated package is a **root**
//! dependency: nothing depends on it, because nothing real has ever heard of
//! it. So the rule is a conjunction of three clauses — not in the corpus,
//! within the length budget of a name that is, and nothing in the lockfile
//! depends on it — and it speaks only about packages the lockfile says came
//! from the public registry, the one the corpus samples.
use crate::corpus::{self, ByLength, Corpus};
use crate::lock::{self, Origin, Tree};
use crate::rules::{self, Finding, FindingView, Order, Rule, Severity};
use crate::text;
use vstd::prelude::*;

verus! {

#[derive(Debug, Clone, Copy)]
pub struct Config {
    /// The third clause. Off is not a supported mode of the tool — it exists
    /// so the clause's worth can be measured.
    pub require_no_parent: bool,
}

impl Default for Config {
    fn default() -> (c: Self)
        ensures
            c.require_no_parent,
    {
        Config { require_no_parent: true }
    }
}

/// How the detail describes the in-degree.
pub open spec fn parent_text(deg: nat) -> Seq<char> {
    if deg == 0 {
        "root-only, no parent"@
    } else {
        text::decimal(deg) + " parent(s)"@
    }
}

pub open spec fn slop_detail(nearest: Seq<char>, d: nat, deg: nat) -> Seq<char> {
    "not in corpus · d="@ + text::decimal(d) + " from \""@ + nearest + "\" · "@ + parent_text(deg)
}

/// Some name in `pool` is a near-miss of `name`, by `nearest_spec`.
pub open spec fn has_near(pool: Seq<Seq<char>>, eco: lock::Ecosystem, name: Seq<char>) -> bool {
    exists|c: Seq<char>, d: int| #[trigger] corpus::nearest_spec(pool, eco, name, Some((c, d)))
}

/// The finding package `i` earns, given its in-degree.
pub open spec fn slop_hit(corpus: Corpus, tree: &Tree, cfg: Config, i: int, deg: nat) -> Option<
    FindingView,
> {
    let q = tree.packages@[i];
    let eco = tree.ecosystem;
    let pool = corpus.list(eco);
    if q.first_party || q.origin != Origin::Registry {
        None
    } else if pool.contains(corpus::normalized(eco, q.name@)) {
        None
    } else if cfg.require_no_parent && deg > 0 {
        None
    } else if has_near(pool, eco, q.name@) {
        let (c, d) = choose|c: Seq<char>, d: int| #[trigger]
            corpus::nearest_spec(pool, eco, q.name@, Some((c, d)));
        Some(
            rules::finding(
                Rule::Slopsquat,
                Severity::Critical,
                q.name@,
                q.version@,
                slop_detail(c, d as nat, deg),
            ),
        )
    } else {
        None
    }
}

/// The findings of the first `n` packages, in tree order.
pub open spec fn slop_hits(corpus: Corpus, tree: &Tree, cfg: Config, n: int) -> Seq<FindingView>
    decreases n,
{
    if n <= 0 {
        seq![]
    } else {
        let rest = slop_hits(corpus, tree, cfg, n - 1);
        match slop_hit(corpus, tree, cfg, n - 1, lock::count_into(tree.edges@, n - 1)) {
            Some(f) => rest.push(f),
            None => rest,
        }
    }
}

/// Every package name is short enough to measure distances on.
pub open spec fn names_fit(tree: &Tree) -> bool {
    forall|i: int|
        0 <= i < tree.packages@.len() ==> (#[trigger] tree.packages@[i]).name@.len() <= usize::MAX
            / 8
}

/// Package `i` meets the rule's three clauses: a registry package not in the
/// corpus, with no parent when the third clause is on.
spec fn eligible(corpus: Corpus, tree: &Tree, cfg: Config, i: int) -> bool {
    let q = tree.packages@[i];
    &&& !q.first_party
    &&& q.origin == Origin::Registry
    &&& !corpus.list(tree.ecosystem).contains(corpus::normalized(tree.ecosystem, q.name@))
    &&& !(cfg.require_no_parent && lock::count_into(tree.edges@, i) > 0)
}

/// `f` names package `q`.
spec fn names(f: FindingView, q: lock::Package) -> bool {
    f.package == q.name@ && f.version == q.version@
}

proof fn lemma_hit_source(corpus: Corpus, tree: &Tree, cfg: Config, n: int, k: int)
    requires
        0 <= n <= tree.packages@.len(),
        0 <= k < slop_hits(corpus, tree, cfg, n).len(),
    ensures
        slop_hits(corpus, tree, cfg, n)[k].rule == Rule::Slopsquat,
        exists|i: int|
            0 <= i < n && #[trigger] names(slop_hits(corpus, tree, cfg, n)[k], tree.packages@[i])
                && eligible(corpus, tree, cfg, i),
    decreases n,
{
    let hit = slop_hit(corpus, tree, cfg, n - 1, lock::count_into(tree.edges@, n - 1));
    if hit is Some && k == slop_hits(corpus, tree, cfg, n - 1).len() {
        assert(names(slop_hits(corpus, tree, cfg, n)[k], tree.packages@[n - 1]));
    } else {
        assert(slop_hits(corpus, tree, cfg, n)[k] == slop_hits(corpus, tree, cfg, n - 1)[k]);
        lemma_hit_source(corpus, tree, cfg, n - 1, k);
    }
}

proof fn lemma_hit_present(corpus: Corpus, tree: &Tree, cfg: Config, n: int, i: int)
    requires
        0 <= i < n <= tree.packages@.len(),
        eligible(corpus, tree, cfg, i),
        has_near(corpus.list(tree.ecosystem), tree.ecosystem, tree.packages@[i].name@),
    ensures
        exists|k: int|
            0 <= k < slop_hits(corpus, tree, cfg, n).len() && #[trigger] names(
                slop_hits(corpus, tree, cfg, n)[k],
                tree.packages@[i],
            ),
    decreases n,
{
    if i == n - 1 {
        assert(names(
            slop_hits(corpus, tree, cfg, n)[slop_hits(corpus, tree, cfg, n - 1).len() as int],
            tree.packages@[i],
        ));
    } else {
        lemma_hit_present(corpus, tree, cfg, n - 1, i);
        let k = choose|k: int|
            0 <= k < slop_hits(corpus, tree, cfg, n - 1).len() && #[trigger] names(
                slop_hits(corpus, tree, cfg, n - 1)[k],
                tree.packages@[i],
            );
        assert(slop_hits(corpus, tree, cfg, n)[k] == slop_hits(corpus, tree, cfg, n - 1)[k]);
        assert(names(slop_hits(corpus, tree, cfg, n)[k], tree.packages@[i]));
    }
}

/// Every finding is a Slopsquat finding naming a registry package that is
/// not in the corpus and, when the third clause is on, has no edge pointing
/// at it; and every such package with a near name in the corpus is named by
/// one.
#[verifier::opaque]
pub open spec fn slop_sourced(corpus: Corpus, tree: &Tree, cfg: Config, v: Seq<FindingView>) -> bool {
    let p = tree.packages@;
    let pool = corpus.list(tree.ecosystem);
    &&& forall|k: int|
        #![trigger v[k]]
        0 <= k < v.len() ==> v[k].rule == Rule::Slopsquat && exists|i: int|
            0 <= i < p.len() && !(#[trigger] p[i]).first_party && p[i].origin == Origin::Registry
                && !pool.contains(corpus::normalized(tree.ecosystem, p[i].name@)) && !(
            cfg.require_no_parent && lock::count_into(tree.edges@, i) > 0) && v[k].package
                == p[i].name@ && v[k].version == p[i].version@
    &&& forall|i: int|
        0 <= i < p.len() && !(#[trigger] p[i]).first_party && p[i].origin == Origin::Registry
            && !pool.contains(corpus::normalized(tree.ecosystem, p[i].name@)) && !(
        cfg.require_no_parent && lock::count_into(tree.edges@, i) > 0) && has_near(
            pool,
            tree.ecosystem,
            p[i].name@,
        ) ==> exists|k: int|
            0 <= k < v.len() && v[k].package == p[i].name@ && v[k].version == p[i].version@
}

/// Every registry package that is not in the corpus, has no parent (when the
/// third clause is on) and is within budget of a name that is, sorted by name.
pub fn scan(tree: &Tree, cfg: Config, corpus: &Corpus) -> (out: Vec<Finding>)
    requires
        tree.edges_in_range(),
        tree.edges@.len() <= u32::MAX,
        names_fit(tree),
    ensures
        rules::stable_sort_of(
            Order::Package,
            rules::views(out@),
            slop_hits(*corpus, tree, cfg, tree.packages@.len() as int),
        ),
        slop_sourced(*corpus, tree, cfg, rules::views(out@)),
{
    let in_degree = tree.in_degree();
    let eco = tree.ecosystem;
    let list = corpus::names(corpus, eco);
    let index = ByLength::new(list.as_slice());
    let ghost pool = corpus.list(eco);
    let mut hits: Vec<Finding> = Vec::new();
    for i in 0..tree.packages.len()
        invariant
            names_fit(tree),
            eco == tree.ecosystem,
            pool == corpus.list(eco),
            index.pool() == pool,
            in_degree@.len() == tree.packages@.len(),
            forall|x: int|
                0 <= x < in_degree@.len() ==> #[trigger] in_degree@[x] == lock::count_into(
                    tree.edges@,
                    x,
                ),
            rules::views(hits@) == slop_hits(*corpus, tree, cfg, i as int),
    {
        let p = &tree.packages[i];
        let deg = in_degree[i];
        let ghost hit = slop_hit(*corpus, tree, cfg, i as int, deg as nat);
        let mut found: Option<Finding> = None;
        if !p.first_party && p.origin == Origin::Registry {
            if !corpus::contains(corpus, eco, p.name.as_str()) {
                if !(cfg.require_no_parent && deg > 0) {
                    proof {
                        assert(p.name@.len() <= usize::MAX / 8);
                    }
                    match index.nearest(eco, p.name.as_str()) {
                        Some((nearest, distance)) => {
                            let mut detail = text::owned("not in corpus · d=");
                            let ds = text::decimal_of(distance as u64);
                            text::append(&mut detail, ds.as_str());
                            text::append(&mut detail, " from \"");
                            text::append(&mut detail, nearest.as_str());
                            text::append(&mut detail, "\" · ");
                            if deg == 0 {
                                text::append(&mut detail, "root-only, no parent");
                            } else {
                                let n = text::decimal_of(deg as u64);
                                text::append(&mut detail, n.as_str());
                                text::append(&mut detail, " parent(s)");
                            }
                            let f = Finding {
                                rule: Rule::Slopsquat,
                                severity: Severity::Critical,
                                package: p.name.clone(),
                                version: p.version.clone(),
                                detail,
                            };
                            proof {
                                let r = Some((nearest@, distance as int));
                                assert(corpus::nearest_spec(pool, eco, p.name@, r));
                                assert(has_near(pool, eco, p.name@));
                                let (c, d) = choose|c: Seq<char>, d: int| #[trigger]
                                    corpus::nearest_spec(pool, eco, p.name@, Some((c, d)));
                                corpus::lemma_nearest_unique(pool, eco, p.name@, r, Some((c, d)));
                                assert(f@.detail == slop_detail(c, d as nat, deg as nat));
                                assert(hit == Some(f@));
                            }
                            found = Some(f);
                        },
                        None => {
                            proof {
                                if has_near(pool, eco, p.name@) {
                                    let (c, d) = choose|c: Seq<char>, d: int| #[trigger]
                                        corpus::nearest_spec(pool, eco, p.name@, Some((c, d)));
                                    corpus::lemma_nearest_unique(
                                        pool,
                                        eco,
                                        p.name@,
                                        None,
                                        Some((c, d)),
                                    );
                                }
                            }
                        },
                    }
                }
            }
        }
        proof {
            assert(found matches Some(f) ==> hit == Some(f@));
            assert(found is None ==> hit is None);
        }
        match found {
            Some(f) => {
                let ghost old_hits = hits@;
                hits.push(f);
                proof {
                    assert(rules::views(hits@) =~= rules::views(old_hits).push(f@));
                }
            },
            None => {},
        }
    }
    let out = rules::sort_findings(hits, Order::Package);
    proof {
        let p = tree.packages@;
        let n = p.len() as int;
        let h = slop_hits(*corpus, tree, cfg, n);
        let v = rules::views(out@);
        rules::lemma_sort_adds_nothing(Order::Package, v, h);
        rules::lemma_sort_keeps_all(Order::Package, v, h);
        let pool = corpus.list(tree.ecosystem);
        assert forall|k: int| #![trigger v[k]] 0 <= k < v.len() implies v[k].rule == Rule::Slopsquat
            && exists|i: int|
            0 <= i < p.len() && !(#[trigger] p[i]).first_party && p[i].origin == Origin::Registry
                && !pool.contains(corpus::normalized(tree.ecosystem, p[i].name@)) && !(
            cfg.require_no_parent && lock::count_into(tree.edges@, i) > 0) && v[k].package
                == p[i].name@ && v[k].version == p[i].version@ by {
            assert(h.contains(v[k]));
            let j = choose|j: int| 0 <= j < h.len() && h[j] == v[k];
            lemma_hit_source(*corpus, tree, cfg, n, j);
            let i = choose|i: int|
                0 <= i < n && #[trigger] names(h[j], p[i]) && eligible(*corpus, tree, cfg, i);
            assert(!p[i].first_party);
        }
        assert forall|i: int|
            0 <= i < p.len() && !(#[trigger] p[i]).first_party && p[i].origin == Origin::Registry
                && !pool.contains(corpus::normalized(tree.ecosystem, p[i].name@)) && !(
            cfg.require_no_parent && lock::count_into(tree.edges@, i) > 0) && has_near(
                pool,
                tree.ecosystem,
                p[i].name@,
            ) implies exists|k: int|
            0 <= k < v.len() && v[k].package == p[i].name@ && v[k].version == p[i].version@ by {
            assert(eligible(*corpus, tree, cfg, i));
            lemma_hit_present(*corpus, tree, cfg, n, i);
            let j = choose|j: int| 0 <= j < h.len() && #[trigger] names(h[j], p[i]);
            assert(v.contains(h[j]));
            let k = choose|k: int| 0 <= k < v.len() && v[k] == h[j];
        }
        reveal(slop_sourced);
    }
    out
}

} // verus!
