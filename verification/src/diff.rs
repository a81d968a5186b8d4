//! `stranger diff old new` — what changed between two lockfiles.
//!
//! `scan` answers "is this tree bad". Someone looking at a pull request has
//! a narrower question: *did this change make it worse*. So `--fail-on` on a
//! diff gates on the worst finding this change introduced, not the worst in
//! the tree.
//!
//! Findings are matched by rule and package, not by version: a bumped
//! dependency keeps its findings, and `left-pad@1.0.0` with an install script
//! becoming `left-pad@1.1.0` with one is neither fixed nor introduced.
use crate::corpus::Corpus;
use crate::error::{Error, Result};
use crate::lock::{self, Ecosystem, Package, Tree};
use crate::rules::{
    self,
    drift,
    pinning,
    scripts,
    slopsquat,
    trivial,
    Finding,
    FindingView,
    Order,
    Severity,
};
use crate::text;
use vstd::prelude::*;

verus! {

pub struct Diff {
    pub old: Tree,
    pub new: Tree,
    /// `name@version` present in the new tree and not the old.
    pub added: Vec<String>,
    pub removed: Vec<String>,
    /// `(name, from, to)` for a name in both trees at different versions.
    pub changed: Vec<(String, String, String)>,
    pub introduced: Vec<Finding>,
    pub resolved: Vec<Finding>,
}

/// `name@version`, the identity of a package across two trees.
pub open spec fn identity(p: Package) -> Seq<char> {
    p.name@ + "@"@ + p.version@
}

/// Some third-party package in `p` has identity `id`.
pub open spec fn is_identity(p: Seq<Package>, id: Seq<char>) -> bool {
    exists|i: int| 0 <= i < p.len() && !p[i].first_party && #[trigger] identity(p[i]) == id
}

/// `s` lists, in byte order, the identities of `a` that `b` lacks.
pub open spec fn lists_new_identities(s: Seq<Seq<char>>, a: Seq<Package>, b: Seq<Package>) -> bool {
    &&& text::strictly_sorted(s)
    &&& forall|id: Seq<char>| #[trigger] s.contains(id) <==> (is_identity(a, id) && !is_identity(b, id))
}

/// `g` lists, in byte order, the versions `name` has in `a` and not in `b`.
pub open spec fn lists_gone(a: Seq<Package>, b: Seq<Package>, name: Seq<char>, g: Seq<Seq<char>>) -> bool {
    &&& text::strictly_sorted(g)
    &&& forall|v: Seq<char>| #[trigger]
        g.contains(v) <==> (drift::has_version(a, name, v) && !drift::has_version(b, name, v))
}

/// Row `i` of one side of a change, or a dash past its end.
pub open spec fn pad_at(s: Seq<Seq<char>>, i: int) -> Seq<char> {
    if i < s.len() {
        s[i]
    } else {
        "—"@
    }
}

pub open spec fn max(a: int, b: int) -> int {
    if a >= b {
        a
    } else {
        b
    }
}

/// `row` is one line of the change of a name present in both trees: the
/// versions that left and the versions that arrived, zipped, the shorter side
/// padded with a dash.
pub open spec fn change_row(
    old: Seq<Package>,
    new: Seq<Package>,
    row: (Seq<char>, Seq<char>, Seq<char>),
) -> bool {
    &&& drift::has_name(old, row.0)
    &&& drift::has_name(new, row.0)
    &&& exists|g: Seq<Seq<char>>, a: Seq<Seq<char>>, i: int|
        #![trigger pad_at(g, i), pad_at(a, i)]
        lists_gone(old, new, row.0, g) && lists_gone(new, old, row.0, a) && 0 <= i < max(
            g.len() as int,
            a.len() as int,
        ) && row.1 == pad_at(g, i) && row.2 == pad_at(a, i)
}

/// Byte order on the name, then the version that left, then the one that
/// arrived.
pub open spec fn row_lt(a: (Seq<char>, Seq<char>, Seq<char>), b: (Seq<char>, Seq<char>, Seq<char>)) -> bool {
    text::seq_lt(a.0, b.0) || (a.0 == b.0 && (text::seq_lt(a.1, b.1) || (a.1 == b.1
        && text::seq_lt(a.2, b.2))))
}

pub open spec fn rows_sorted(s: Seq<(Seq<char>, Seq<char>, Seq<char>)>) -> bool {
    forall|i: int, j: int| 0 <= i < j < s.len() ==> row_lt(#[trigger] s[i], #[trigger] s[j])
}

pub open spec fn row_view(r: (String, String, String)) -> (Seq<char>, Seq<char>, Seq<char>) {
    (r.0@, r.1@, r.2@)
}

pub open spec fn rows(s: Seq<(String, String, String)>) -> Seq<(Seq<char>, Seq<char>, Seq<char>)> {
    s.map_values(|r: (String, String, String)| row_view(r))
}

pub open spec fn chars_row(r: (Vec<char>, Vec<char>, Vec<char>)) -> (Seq<char>, Seq<char>, Seq<char>) {
    (r.0@, r.1@, r.2@)
}

pub open spec fn chars_rows(s: Seq<(Vec<char>, Vec<char>, Vec<char>)>) -> Seq<
    (Seq<char>, Seq<char>, Seq<char>),
> {
    s.map_values(|r: (Vec<char>, Vec<char>, Vec<char>)| chars_row(r))
}

/// Some finding of `s` has `f`'s rule and package.
pub open spec fn has_key(s: Seq<FindingView>, f: FindingView) -> bool {
    exists|i: int| 0 <= i < s.len() && (#[trigger] s[i]).rule == f.rule && s[i].package == f.package
}

/// The findings of `s` whose rule and package `other` has none of, in order.
pub open spec fn unmatched(s: Seq<FindingView>, other: Seq<FindingView>) -> Seq<FindingView> {
    s.filter(|f: FindingView| !has_key(other, f))
}

/// `s` is every rule's findings on `tree`, in report order, split as
/// `a` to `e`.
pub open spec fn parts_of(
    tree: &Tree,
    corpus: Corpus,
    s: Seq<FindingView>,
    a: Seq<FindingView>,
    b: Seq<FindingView>,
    c: Seq<FindingView>,
    d: Seq<FindingView>,
    e: Seq<FindingView>,
) -> bool {
    let p = tree.packages@;
    &&& s == a + b + c + d + e
    &&& rules::stable_sort_of(
        Order::Package,
        a,
        slopsquat::slop_hits(
            corpus,
            tree,
            slopsquat::Config { require_no_parent: true },
            p.len() as int,
        ),
    )
    &&& rules::stable_sort_of(Order::PackageVersion, b, scripts::script_hits(p))
    &&& exists|t: Seq<FindingView>|
        #[trigger] rules::stable_sort_of(
            Order::PackageVersion,
            t,
            trivial::trivial_hits(p, tree.edges@),
        ) && c == trivial::dedup_same(t)
    &&& drift::drift_listing(p, d)
    &&& tree.ecosystem != Ecosystem::PyPi ==> e.len() == 0
    &&& tree.ecosystem == Ecosystem::PyPi ==> rules::stable_sort_of(
        Order::Package,
        e,
        pinning::pin_hits(p),
    )
}

/// `s` is what every rule finds on `tree`, in report order.
pub open spec fn all_findings(tree: &Tree, corpus: Corpus, s: Seq<FindingView>) -> bool {
    exists|
        a: Seq<FindingView>,
        b: Seq<FindingView>,
        c: Seq<FindingView>,
        d: Seq<FindingView>,
        e: Seq<FindingView>,
    | #[trigger] parts_of(tree, corpus, s, a, b, c, d, e)
}

/// A tree every rule can be run on.
pub open spec fn scannable(tree: &Tree) -> bool {
    &&& tree.edges_in_range()
    &&& tree.edges@.len() <= u32::MAX
    &&& slopsquat::names_fit(tree)
}

impl Diff {
    /// The worst thing this change introduced, which is what `--fail-on` gates
    /// on. `None` when it introduced nothing.
    pub fn worst(&self) -> (r: Option<Severity>)
        ensures
            r is None <==> self.introduced@.len() == 0,
            r matches Some(s) ==> {
                &&& exists|i: int|
                    0 <= i < self.introduced@.len() && (#[trigger] self.introduced@[i]).severity == s
                &&& forall|i: int|
                    0 <= i < self.introduced@.len() ==> rules::severity_level(
                        (#[trigger] self.introduced@[i]).severity,
                    ) <= rules::severity_level(s)
            },
    {
        let mut best: Option<Severity> = None;
        for i in 0..self.introduced.len()
            invariant
                best is None <==> i == 0,
                best matches Some(s) ==> {
                    &&& exists|j: int| 0 <= j < i && (#[trigger] self.introduced@[j]).severity == s
                    &&& forall|j: int|
                        0 <= j < i ==> rules::severity_level(
                            (#[trigger] self.introduced@[j]).severity,
                        ) <= rules::severity_level(s)
                },
        {
            let s = self.introduced[i].severity;
            best = match best {
                None => Some(s),
                Some(b) => if s.level() > b.level() {
                    Some(s)
                } else {
                    Some(b)
                },
            };
        }
        best
    }

    /// Nothing to report — which has to include the findings and not just the
    /// package lists, or a finding moving alone prints "no change" and fails
    /// `--fail-on` in the same breath.
    pub fn is_empty(&self) -> (r: bool)
        ensures
            r == (self.added@.len() == 0 && self.removed@.len() == 0 && self.changed@.len() == 0
                && self.introduced@.len() == 0 && self.resolved@.len() == 0),
    {
        self.added.len() == 0 && self.removed.len() == 0 && self.changed.len() == 0
            && self.introduced.len() == 0 && self.resolved.len() == 0
    }
}

/// A copy of `s`'s characters.
fn copy_chars(s: &Vec<char>) -> (r: Vec<char>)
    ensures
        r@ == s@,
{
    proof {
        assert(s@.subrange(0, s@.len() as int) =~= s@);
    }
    text::slice(s, 0, s.len())
}

/// A copy of a finding.
fn copy_finding(f: &Finding) -> (r: Finding)
    ensures
        r@ == f@,
{
    Finding {
        rule: f.rule,
        severity: f.severity,
        package: f.package.clone(),
        version: f.version.clone(),
        detail: f.detail.clone(),
    }
}

/// The identity of every third-party package, in byte order.
fn identities(tree: &Tree) -> (out: Vec<Vec<char>>)
    ensures
        text::strictly_sorted(text::seqs(out@)),
        forall|id: Seq<char>| #[trigger]
            text::seqs(out@).contains(id) <==> is_identity(tree.packages@, id),
{
    let p = &tree.packages;
    let mut out: Vec<Vec<char>> = Vec::new();
    for i in 0..p.len()
        invariant
            p == &tree.packages,
            text::strictly_sorted(text::seqs(out@)),
            forall|id: Seq<char>| #[trigger]
                text::seqs(out@).contains(id) <==> is_identity(p@.take(i as int), id),
    {
        if !p[i].first_party {
            let mut id = text::owned(p[i].name.as_str());
            text::append(&mut id, "@");
            text::append(&mut id, p[i].version.as_str());
            let chars = text::chars_of(id.as_str());
            proof {
                assert(chars@ == identity(p@[i as int]));
            }
            text::insert_unique(&mut out, chars);
        }
        proof {
            let t = p@.take(i + 1);
            let s = p@.take(i as int);
            assert forall|id: Seq<char>| #[trigger]
                text::seqs(out@).contains(id) <==> is_identity(t, id) by {
                if is_identity(t, id) {
                    let j = choose|j: int| 0 <= j < t.len() && !t[j].first_party && #[trigger] identity(t[j]) == id;
                    if j < i {
                        assert(s[j] == t[j]);
                        assert(is_identity(s, id));
                    }
                }
                if is_identity(s, id) {
                    let j = choose|j: int| 0 <= j < s.len() && !s[j].first_party && #[trigger] identity(s[j]) == id;
                    assert(t[j] == s[j]);
                    assert(is_identity(t, id));
                }
                if !p@[i as int].first_party && id == identity(p@[i as int]) {
                    assert(t[i as int] == p@[i as int]);
                    assert(is_identity(t, id));
                }
            }
        }
    }
    proof {
        assert(p@.take(p@.len() as int) =~= p@);
    }
    out
}

/// The findings of `s` whose rule and package `other` has none of, copied,
/// in order.
fn unmatched_of(s: &Vec<Finding>, other: &Vec<Finding>) -> (out: Vec<Finding>)
    ensures
        rules::views(out@) == unmatched(rules::views(s@), rules::views(other@)),
{
    let ghost ov = rules::views(other@);
    let ghost sv = rules::views(s@);
    let mut out: Vec<Finding> = Vec::new();
    for i in 0..s.len()
        invariant
            ov == rules::views(other@),
            sv == rules::views(s@),
            rules::views(out@) == unmatched(sv.take(i as int), ov),
    {
        let f = &s[i];
        let mut matched = false;
        for j in 0..other.len()
            invariant
                ov == rules::views(other@),
                matched == exists|x: int|
                    0 <= x < j && (#[trigger] ov[x]).rule == f@.rule && ov[x].package == f@.package,
        {
            proof {
                assert(ov[j as int] == other@[j as int]@);
            }
            if other[j].rule == f.rule && text::same(other[j].package.as_str(), f.package.as_str()) {
                matched = true;
            }
        }
        proof {
            reveal(Seq::filter);
            assert(sv.take(i + 1).drop_last() =~= sv.take(i as int));
            assert(sv.take(i + 1).last() == f@);
        }
        if !matched {
            let c = copy_finding(f);
            let ghost old_out = out@;
            out.push(c);
            proof {
                assert(rules::views(out@) =~= rules::views(old_out).push(c@));
            }
        }
    }
    proof {
        assert(sv.take(sv.len() as int) =~= sv);
    }
    out
}

/// Whether every rule can be run on `tree`: its edges and roots name its
/// own entries, and its names are short enough to measure.
pub fn can_scan(tree: &Tree) -> (r: bool)
    ensures
        r == scannable(tree),
{
    let n = tree.packages.len();
    for e in 0..tree.edges.len()
        invariant
            n == tree.packages@.len(),
            forall|x: int|
                0 <= x < e ==> (#[trigger] tree.edges@[x]).0 < n && tree.edges@[x].1 < n,
    {
        if tree.edges[e].0 >= n || tree.edges[e].1 >= n {
            return false;
        }
    }
    if tree.edges.len() > 4294967295 {
        return false;
    }
    for i in 0..n
        invariant
            n == tree.packages@.len(),
            forall|x: int|
                0 <= x < i ==> (#[trigger] tree.packages@[x]).name@.len() <= usize::MAX / 8,
    {
        if text::chars_of(tree.packages[i].name.as_str()).len() > usize::MAX / 8 {
            return false;
        }
    }
    true
}

/// Every rule's findings on `tree`, in report order.
#[verifier::spinoff_prover]
#[verifier::rlimit(60)]
pub fn findings(tree: &Tree, corpus: &Corpus) -> (out: Vec<Finding>)
    requires
        scannable(tree),
    ensures
        all_findings(tree, *corpus, rules::views(out@)),
{
    let mut out = slopsquat::scan(tree, slopsquat::Config::default(), corpus);
    let mut b = scripts::scan(tree);
    let mut c = trivial::scan(tree);
    let mut d = drift::scan(tree);
    let mut e = pinning::scan(tree);
    let ghost va = rules::views(out@);
    let ghost vb = rules::views(b@);
    let ghost vc = rules::views(c@);
    let ghost vd = rules::views(d@);
    let ghost ve = rules::views(e@);
    let ghost ra = out@;
    let ghost rb = b@;
    let ghost rc = c@;
    let ghost rd = d@;
    let ghost re = e@;
    out.append(&mut b);
    out.append(&mut c);
    out.append(&mut d);
    out.append(&mut e);
    proof {
        assert(out@ == ra + rb + rc + rd + re);
        assert(rules::views(out@) =~= va + vb + vc + vd + ve);
        let t = choose|t: Seq<FindingView>|
            rules::stable_sort_of(Order::PackageVersion, t, trivial::trivial_hits(tree.packages@, tree.edges@))
                && vc == trivial::dedup_same(t);
        assert(rules::stable_sort_of(
            Order::PackageVersion,
            t,
            trivial::trivial_hits(tree.packages@, tree.edges@),
        ));
        assert(parts_of(tree, *corpus, rules::views(out@), va, vb, vc, vd, ve));
    }
    out
}

proof fn lemma_row_lt_total(a: (Seq<char>, Seq<char>, Seq<char>), b: (Seq<char>, Seq<char>, Seq<char>))
    ensures
        row_lt(a, b) || row_lt(b, a) || a == b,
{
    text::lemma_lt_total(a.0, b.0);
    text::lemma_lt_total(a.1, b.1);
    text::lemma_lt_total(a.2, b.2);
}

proof fn lemma_row_lt_transitive(
    a: (Seq<char>, Seq<char>, Seq<char>),
    b: (Seq<char>, Seq<char>, Seq<char>),
    c: (Seq<char>, Seq<char>, Seq<char>),
)
    requires
        row_lt(a, b),
        row_lt(b, c),
    ensures
        row_lt(a, c),
{
    if text::seq_lt(a.0, b.0) && text::seq_lt(b.0, c.0) {
        text::lemma_lt_transitive(a.0, b.0, c.0);
    }
    if text::seq_lt(a.1, b.1) && text::seq_lt(b.1, c.1) {
        text::lemma_lt_transitive(a.1, b.1, c.1);
    }
    if text::seq_lt(a.2, b.2) && text::seq_lt(b.2, c.2) {
        text::lemma_lt_transitive(a.2, b.2, c.2);
    }
}

/// Whether row `a` sorts strictly before row `b`.
fn row_less(a: &(Vec<char>, Vec<char>, Vec<char>), b: &(Vec<char>, Vec<char>, Vec<char>)) -> (r: bool)
    ensures
        r == row_lt(chars_row(*a), chars_row(*b)),
{
    if text::less(&a.0, &b.0) {
        true
    } else if !text::same_chars(&a.0, &b.0) {
        false
    } else if text::less(&a.1, &b.1) {
        true
    } else if !text::same_chars(&a.1, &b.1) {
        false
    } else {
        text::less(&a.2, &b.2)
    }
}

/// `x` added to a strictly sorted list of rows, which stays strictly sorted;
/// nothing happens when it is already there.
fn insert_row(list: &mut Vec<(Vec<char>, Vec<char>, Vec<char>)>, x: (Vec<char>, Vec<char>, Vec<char>))
    requires
        rows_sorted(chars_rows(old(list)@)),
    ensures
        rows_sorted(chars_rows(final(list)@)),
        forall|v: (Seq<char>, Seq<char>, Seq<char>)|
            #[trigger] chars_rows(final(list)@).contains(v) <==> (chars_rows(old(list)@).contains(v)
                || v == chars_row(x)),
{
    let ghost before = chars_rows(list@);
    let ghost xv = chars_row(x);
    let mut p: usize = 0;
    while p < list.len() && row_less(&list[p], &x)
        invariant
            p <= list@.len(),
            before == chars_rows(list@),
            xv == chars_row(x),
            forall|j: int| 0 <= j < p ==> row_lt(#[trigger] before[j], xv),
        decreases list@.len() - p,
    {
        proof {
            assert(before[p as int] == chars_row(list@[p as int]));
        }
        p = p + 1;
    }
    if p < list.len() && text::same_chars(&list[p].0, &x.0) && text::same_chars(&list[p].1, &x.1)
        && text::same_chars(&list[p].2, &x.2) {
        proof {
            assert(before[p as int] == chars_row(list@[p as int]));
            assert(before[p as int] == xv);
            assert(before.contains(xv));
        }
        return;
    }
    proof {
        if p < before.len() {
            assert(before[p as int] == chars_row(list@[p as int]));
            lemma_row_lt_total(before[p as int], xv);
            assert(row_lt(xv, before[p as int]));
            assert forall|j: int| p <= j < before.len() implies row_lt(xv, #[trigger] before[j]) by {
                if j > p {
                    lemma_row_lt_transitive(xv, before[p as int], before[j]);
                }
            }
        }
    }
    list.insert(p, x);
    proof {
        let after = chars_rows(list@);
        assert(after =~= before.insert(p as int, xv));
        assert forall|i: int, j: int| 0 <= i < j < after.len() implies row_lt(
            #[trigger] after[i],
            #[trigger] after[j],
        ) by {
            if j < p {
            } else if j == p {
                assert(after[i] == before[i]);
            } else if i > p {
                assert(after[i] == before[i - 1] && after[j] == before[j - 1]);
            } else if i == p {
                assert(after[j] == before[j - 1]);
            } else {
                assert(after[i] == before[i] && after[j] == before[j - 1]);
                lemma_row_lt_transitive(before[i], xv, before[j - 1]);
            }
        }
        assert forall|v: (Seq<char>, Seq<char>, Seq<char>)| #[trigger] after.contains(v) <==> (
        before.contains(v) || v == xv) by {
            if after.contains(v) {
                let i = choose|i: int| 0 <= i < after.len() && after[i] == v;
                if i < p {
                    assert(before[i] == v);
                } else if i > p {
                    assert(before[i - 1] == v);
                }
            }
            if before.contains(v) {
                let i = choose|i: int| 0 <= i < before.len() && before[i] == v;
                if i < p {
                    assert(after[i] == v);
                } else {
                    assert(after[i + 1] == v);
                }
            }
            if v == xv {
                assert(after[p as int] == v);
            }
        }
    }
}

/// The dash a row shows on the side with fewer versions.
fn pad(s: &Vec<Vec<char>>, i: usize) -> (r: Vec<char>)
    ensures
        r@ == pad_at(text::seqs(s@), i as int),
{
    if i < s.len() {
        copy_chars(&s[i])
    } else {
        text::chars_of("—")
    }
}

/// Every change row, in byte order.
fn changes(old: &Vec<Package>, new: &Vec<Package>) -> (out: Vec<(Vec<char>, Vec<char>, Vec<char>)>)
    ensures
        rows_sorted(chars_rows(out@)),
        forall|r: (Seq<char>, Seq<char>, Seq<char>)| #[trigger]
            chars_rows(out@).contains(r) <==> change_row(old@, new@, r),
{
    let names = drift::names(old);
    let ghost sn = text::seqs(names@);
    let mut out: Vec<(Vec<char>, Vec<char>, Vec<char>)> = Vec::new();
    for k in 0..names.len()
        invariant
            sn == text::seqs(names@),
            text::strictly_sorted(sn),
            forall|n: Seq<char>| #[trigger] sn.contains(n) <==> drift::has_name(old@, n),
            rows_sorted(chars_rows(out@)),
            forall|r: (Seq<char>, Seq<char>, Seq<char>)| #[trigger]
                chars_rows(out@).contains(r) <==> (change_row(old@, new@, r) && sn.take(
                    k as int,
                ).contains(r.0)),
    {
        let name = &names[k];
        proof {
            assert(sn[k as int] == name@);
            assert(sn.contains(name@));
        }
        let before = drift::versions(old, name);
        let after = drift::versions(new, name);
        let gone = text::minus(&before, &after);
        let arrived = text::minus(&after, &before);
        let ghost g = text::seqs(gone@);
        let ghost a = text::seqs(arrived@);
        proof {
            assert(lists_gone(old@, new@, name@, g));
            assert(lists_gone(new@, old@, name@, a));
        }
        let present = after.len() > 0;
        proof {
            if present {
                assert(text::seqs(after@).contains(text::seqs(after@)[0]));
                let v = text::seqs(after@)[0];
                assert(drift::has_version(new@, name@, v));
                let j = choose|j: int| 0 <= j < new@.len() && !new@[j].first_party && (#[trigger] new@[j].name@) == name@ && new@[j].version@ == v;
                assert(drift::has_name(new@, name@));
            } else {
                if drift::has_name(new@, name@) {
                    let j = choose|j: int| 0 <= j < new@.len() && !new@[j].first_party && (#[trigger] new@[j].name@) == name@;
                    assert(drift::has_version(new@, name@, new@[j].version@));
                    assert(text::seqs(after@).contains(new@[j].version@));
                }
            }
        }
        let ghost mid = chars_rows(out@);
        if present {
            let n = if gone.len() >= arrived.len() {
                gone.len()
            } else {
                arrived.len()
            };
            for i in 0..n
                invariant
                    n == max(g.len() as int, a.len() as int),
                    g == text::seqs(gone@),
                    a == text::seqs(arrived@),
                    lists_gone(old@, new@, name@, g),
                    lists_gone(new@, old@, name@, a),
                    drift::has_name(old@, name@),
                    drift::has_name(new@, name@),
                    rows_sorted(chars_rows(out@)),
                    forall|r: (Seq<char>, Seq<char>, Seq<char>)| #[trigger]
                        chars_rows(out@).contains(r) <==> (mid.contains(r) || (r.0 == name@
                            && exists|x: int| 0 <= x < i && r.1 == pad_at(g, x) && r.2 == pad_at(a, x))),
            {
                let row = (copy_chars(name), pad(&gone, i), pad(&arrived, i));
                let ghost rv = chars_row(row);
                insert_row(&mut out, row);
                proof {
                    assert forall|r: (Seq<char>, Seq<char>, Seq<char>)| #[trigger]
                        chars_rows(out@).contains(r) <==> (mid.contains(r) || (r.0 == name@
                            && exists|x: int| 0 <= x < i + 1 && r.1 == pad_at(g, x) && r.2 == pad_at(a, x))) by {
                        if r == rv {
                            assert(r.1 == pad_at(g, i as int) && r.2 == pad_at(a, i as int));
                        }
                        if r.0 == name@ && exists|x: int| 0 <= x < i + 1 && r.1 == pad_at(g, x) && r.2 == pad_at(a, x) {
                            let x = choose|x: int| 0 <= x < i + 1 && r.1 == pad_at(g, x) && r.2 == pad_at(a, x);
                            if x == i {
                                assert(r == rv);
                            }
                        }
                    }
                }
            }
        }
        proof {
            let t = sn.take(k + 1);
            assert(t =~= sn.take(k as int).push(name@));
            assert forall|r: (Seq<char>, Seq<char>, Seq<char>)| #[trigger]
                chars_rows(out@).contains(r) <==> (change_row(old@, new@, r) && t.contains(r.0)) by {
                if r.0 == name@ {
                    assert(t[k as int] == name@);
                    assert(t.contains(r.0));
                    if change_row(old@, new@, r) {
                        let (g2, a2, x) = choose|g2: Seq<Seq<char>>, a2: Seq<Seq<char>>, x: int|
                            #![trigger pad_at(g2, x), pad_at(a2, x)]
                            lists_gone(old@, new@, r.0, g2) && lists_gone(new@, old@, r.0, a2) && 0 <= x < max(
                                g2.len() as int,
                                a2.len() as int,
                            ) && r.1 == pad_at(g2, x) && r.2 == pad_at(a2, x);
                        text::lemma_sorted_unique(g, g2);
                        text::lemma_sorted_unique(a, a2);
                        assert(present);
                    }
                    if chars_rows(out@).contains(r) && !mid.contains(r) {
                        let x = choose|x: int| 0 <= x < max(g.len() as int, a.len() as int) && r.1 == pad_at(g, x) && r.2 == pad_at(a, x);
                        assert(change_row(old@, new@, r));
                    }
                    if mid.contains(r) {
                        let y = choose|y: int| 0 <= y < k && sn.take(k as int)[y] == r.0;
                        assert(sn[y] == r.0);
                        assert(text::seq_lt(sn[y], sn[k as int]));
                        text::lemma_lt_irreflexive(name@);
                    }
                } else {
                    if t.contains(r.0) {
                        let y = choose|y: int| 0 <= y < t.len() && t[y] == r.0;
                        assert(y < k);
                        assert(sn.take(k as int)[y] == r.0);
                    }
                    if sn.take(k as int).contains(r.0) {
                        let y = choose|y: int| 0 <= y < k && sn.take(k as int)[y] == r.0;
                        assert(t[y] == r.0);
                    }
                }
            }
        }
    }
    proof {
        assert(sn.take(names@.len() as int) =~= sn);
        assert forall|r: (Seq<char>, Seq<char>, Seq<char>)| #[trigger]
            chars_rows(out@).contains(r) <==> change_row(old@, new@, r) by {
            if change_row(old@, new@, r) {
                assert(sn.contains(r.0));
            }
        }
    }
    out
}

/// The rows as strings.
fn row_strings(v: &Vec<(Vec<char>, Vec<char>, Vec<char>)>) -> (r: Vec<(String, String, String)>)
    ensures
        rows(r@) == chars_rows(v@),
{
    let mut r: Vec<(String, String, String)> = Vec::new();
    for i in 0..v.len()
        invariant
            rows(r@) == chars_rows(v@).take(i as int),
    {
        let row = (text::string_of(&v[i].0), text::string_of(&v[i].1), text::string_of(&v[i].2));
        let ghost old_r = r@;
        r.push(row);
        proof {
            assert(rows(r@) =~= rows(old_r).push(row_view(row)));
            assert(chars_rows(v@).take(i + 1) =~= chars_rows(v@).take(i as int).push(
                chars_row(v@[i as int]),
            ));
        }
    }
    proof {
        assert(chars_rows(v@).take(v@.len() as int) =~= chars_rows(v@));
    }
    r
}

/// `d` is the diff from `before` to `after`.
pub open spec fn diff_of(before: Tree, after: Tree, corpus: Corpus, d: Diff) -> bool {
    &&& d.old == before
    &&& d.new == after
    &&& lists_new_identities(text::strings(d.added@), after.packages@, before.packages@)
    &&& lists_new_identities(text::strings(d.removed@), before.packages@, after.packages@)
    &&& rows_sorted(rows(d.changed@))
    &&& forall|r: (Seq<char>, Seq<char>, Seq<char>)| #[trigger]
        rows(d.changed@).contains(r) <==> change_row(before.packages@, after.packages@, r)
    &&& exists|fo: Seq<FindingView>, fa: Seq<FindingView>|
        #[trigger] all_findings(&before, corpus, fo) && #[trigger] all_findings(&after, corpus, fa)
            && rules::views(d.introduced@) == unmatched(fa, fo) && rules::views(d.resolved@)
            == unmatched(fo, fa)
}

/// What changed from `before` to `after`: identities added and removed, the
/// version changes of names in both, and the findings the change introduced
/// and resolved, matched by rule and package.
pub fn build(before: Tree, after: Tree, corpus: &Corpus) -> (d: Diff)
    requires
        scannable(&before),
        scannable(&after),
    ensures
        diff_of(before, after, *corpus, d),
{
    let old_ids = identities(&before);
    let new_ids = identities(&after);
    let added = text::to_strings(&text::minus(&new_ids, &old_ids));
    let removed = text::to_strings(&text::minus(&old_ids, &new_ids));
    let changed = row_strings(&changes(&before.packages, &after.packages));
    let old_findings = findings(&before, corpus);
    let new_findings = findings(&after, corpus);
    let introduced = unmatched_of(&new_findings, &old_findings);
    let resolved = unmatched_of(&old_findings, &new_findings);
    proof {
        assert(all_findings(&before, *corpus, rules::views(old_findings@)));
        assert(all_findings(&after, *corpus, rules::views(new_findings@)));
    }
    Diff { old: before, new: after, added, removed, changed, introduced, resolved }
}

pub open spec fn mismatch_message(before: Tree, after: Tree) -> Seq<char> {
    before.source@ + " and "@ + after.source@ + " are different ecosystems ("@
        + lock::ecosystem_name(before.ecosystem) + " and "@ + lock::ecosystem_name(after.ecosystem)
        + "); there is nothing to compare"@
}

/// The diff of two trees of one ecosystem. Two registries have no reading of
/// "what changed" that spans them, so that is refused; two npm formats are
/// one ecosystem and compare fine.
pub fn compare(before: Tree, after: Tree, corpus: &Corpus) -> (r: Result<Diff>)
    requires
        scannable(&before),
        scannable(&after),
    ensures
        before.ecosystem != after.ecosystem ==> (r matches Err(Error::Usage(m)) && m@
            == mismatch_message(before, after)),
        before.ecosystem == after.ecosystem ==> (r matches Ok(d) && diff_of(
            before,
            after,
            *corpus,
            d,
        )),
{
    if before.ecosystem != after.ecosystem {
        let mut msg = text::owned(before.source.as_str());
        text::append(&mut msg, " and ");
        text::append(&mut msg, after.source.as_str());
        text::append(&mut msg, " are different ecosystems (");
        text::append(&mut msg, before.ecosystem.as_str());
        text::append(&mut msg, " and ");
        text::append(&mut msg, after.ecosystem.as_str());
        text::append(&mut msg, "); there is nothing to compare");
        return Err(Error::usage(msg.as_str()));
    }
    Ok(build(before, after, corpus))
}

proof fn lemma_no_identities(s: Seq<Seq<char>>, a: Seq<Package>)
    requires
        lists_new_identities(s, a, a),
    ensures
        s.len() == 0,
{
    if s.len() > 0 {
        assert(s.contains(s[0]));
    }
}

proof fn lemma_nothing_gone(a: Seq<Package>, name: Seq<char>, g: Seq<Seq<char>>)
    requires
        lists_gone(a, a, name, g),
    ensures
        g.len() == 0,
{
    if g.len() > 0 {
        assert(g.contains(g[0]));
    }
}

proof fn lemma_no_change_row(a: Seq<Package>, r: (Seq<char>, Seq<char>, Seq<char>))
    ensures
        !change_row(a, a, r),
{
    if change_row(a, a, r) {
        let (g, b, i) = choose|g: Seq<Seq<char>>, b: Seq<Seq<char>>, i: int|
            #![trigger pad_at(g, i), pad_at(b, i)]
            lists_gone(a, a, r.0, g) && lists_gone(a, a, r.0, b) && 0 <= i < max(
                g.len() as int,
                b.len() as int,
            ) && r.1 == pad_at(g, i) && r.2 == pad_at(b, i);
        lemma_nothing_gone(a, r.0, g);
        lemma_nothing_gone(a, r.0, b);
    }
}

proof fn lemma_has_key_in(x: Seq<FindingView>, y: Seq<FindingView>, f: FindingView)
    ensures
        has_key(x, f) ==> has_key(x + y, f),
        has_key(y, f) ==> has_key(x + y, f),
{
    if has_key(x, f) {
        let i = choose|i: int| 0 <= i < x.len() && (#[trigger] x[i]).rule == f.rule && x[i].package == f.package;
        assert((x + y)[i] == x[i]);
    }
    if has_key(y, f) {
        let i = choose|i: int| 0 <= i < y.len() && (#[trigger] y[i]).rule == f.rule && y[i].package == f.package;
        assert((x + y)[x.len() + i] == y[i]);
    }
}

proof fn lemma_contains_key(x: Seq<FindingView>, f: FindingView)
    requires
        x.contains(f),
    ensures
        has_key(x, f),
{
    let i = choose|i: int| 0 <= i < x.len() && x[i] == f;
    assert(x[i].rule == f.rule);
}

proof fn lemma_trivial_rule(p: Seq<Package>, edges: Seq<(usize, usize)>)
    ensures
        forall|i: int|
            0 <= i < trivial::trivial_hits(p, edges).len() ==> (#[trigger] trivial::trivial_hits(
                p,
                edges,
            )[i]).rule == rules::Rule::Trivial,
    decreases p.len(),
{
    if p.len() > 0 {
        lemma_trivial_rule(p.drop_last(), edges);
    }
}

/// Dropping repeats keeps a finding with every key, and adds none.
proof fn lemma_dedup_keys(s: Seq<FindingView>, r: rules::Rule)
    requires
        forall|j: int| 0 <= j < s.len() ==> (#[trigger] s[j]).rule == r,
    ensures
        forall|j: int| 0 <= j < s.len() ==> has_key(trivial::dedup_same(s), #[trigger] s[j]),
        forall|i: int|
            0 <= i < trivial::dedup_same(s).len() ==> s.contains(#[trigger] trivial::dedup_same(s)[i]),
    decreases s.len(),
{
    if s.len() > 0 {
        let t = s.drop_last();
        lemma_dedup_keys(t, r);
        let d = trivial::dedup_same(t);
        let n = s.len() as int;
        assert forall|i: int| 0 <= i < trivial::dedup_same(s).len() implies s.contains(
            #[trigger] trivial::dedup_same(s)[i],
        ) by {
            if i < d.len() {
                assert(t.contains(d[i]));
                let k = choose|k: int| 0 <= k < t.len() && t[k] == d[i];
                assert(s[k] == d[i]);
            } else {
                assert(s[n - 1] == trivial::dedup_same(s)[i]);
            }
        }
        assert forall|j: int| 0 <= j < s.len() implies has_key(trivial::dedup_same(s), #[trigger] s[j]) by {
            if j < n - 1 {
                assert(s[j] == t[j]);
                assert(has_key(d, t[j]));
                let k = choose|k: int| 0 <= k < d.len() && (#[trigger] d[k]).rule == t[j].rule && d[k].package == t[j].package;
                assert(trivial::dedup_same(s)[k] == d[k]);
            } else if n >= 2 && s[n - 2].package == s[n - 1].package && s[n - 2].version == s[n - 1].version {
                assert(s[n - 2] == t[n - 2]);
                assert(has_key(d, t[n - 2]));
                let k = choose|k: int| 0 <= k < d.len() && (#[trigger] d[k]).rule == t[n - 2].rule && d[k].package == t[n - 2].package;
                assert(trivial::dedup_same(s)[k] == d[k]);
            } else {
                assert(trivial::dedup_same(s)[d.len() as int] == s[n - 1]);
            }
        }
    }
}

/// Two runs of the rules over one tree find the same rules firing on the
/// same packages.
proof fn lemma_same_keys(tree: &Tree, corpus: Corpus, s1: Seq<FindingView>, s2: Seq<FindingView>)
    requires
        all_findings(tree, corpus, s1),
        all_findings(tree, corpus, s2),
    ensures
        forall|i: int| 0 <= i < s1.len() ==> has_key(s2, #[trigger] s1[i]),
{
    let (a1, b1, c1, d1, e1) = choose|
        a: Seq<FindingView>,
        b: Seq<FindingView>,
        c: Seq<FindingView>,
        d: Seq<FindingView>,
        e: Seq<FindingView>,
    | #[trigger] parts_of(tree, corpus, s1, a, b, c, d, e);
    let (a2, b2, c2, d2, e2) = choose|
        a: Seq<FindingView>,
        b: Seq<FindingView>,
        c: Seq<FindingView>,
        d: Seq<FindingView>,
        e: Seq<FindingView>,
    | #[trigger] parts_of(tree, corpus, s2, a, b, c, d, e);
    let p = tree.packages@;
    let slop = slopsquat::slop_hits(
        corpus,
        tree,
        slopsquat::Config { require_no_parent: true },
        p.len() as int,
    );
    rules::lemma_sort_adds_nothing(Order::Package, a1, slop);
    rules::lemma_sort_keeps_all(Order::Package, a2, slop);
    rules::lemma_sort_adds_nothing(Order::PackageVersion, b1, scripts::script_hits(p));
    rules::lemma_sort_keeps_all(Order::PackageVersion, b2, scripts::script_hits(p));
    let t1 = choose|t: Seq<FindingView>|
        #[trigger] rules::stable_sort_of(Order::PackageVersion, t, trivial::trivial_hits(p, tree.edges@))
            && c1 == trivial::dedup_same(t);
    let t2 = choose|t: Seq<FindingView>|
        #[trigger] rules::stable_sort_of(Order::PackageVersion, t, trivial::trivial_hits(p, tree.edges@))
            && c2 == trivial::dedup_same(t);
    let th = trivial::trivial_hits(p, tree.edges@);
    rules::lemma_sort_adds_nothing(Order::PackageVersion, t1, th);
    rules::lemma_sort_keeps_all(Order::PackageVersion, t2, th);
    rules::lemma_sort_adds_nothing(Order::PackageVersion, t2, th);
    lemma_trivial_rule(p, tree.edges@);
    assert forall|j: int| 0 <= j < t1.len() implies (#[trigger] t1[j]).rule == rules::Rule::Trivial by {
        assert(th.contains(t1[j]));
    }
    assert forall|j: int| 0 <= j < t2.len() implies (#[trigger] t2[j]).rule == rules::Rule::Trivial by {
        assert(th.contains(t2[j]));
    }
    lemma_dedup_keys(t1, rules::Rule::Trivial);
    lemma_dedup_keys(t2, rules::Rule::Trivial);
    if tree.ecosystem == Ecosystem::PyPi {
        rules::lemma_sort_adds_nothing(Order::Package, e1, pinning::pin_hits(p));
        rules::lemma_sort_keeps_all(Order::Package, e2, pinning::pin_hits(p));
    }
    assert forall|i: int| 0 <= i < s1.len() implies has_key(s2, #[trigger] s1[i]) by {
        let f = s1[i];
        let x1 = a1.len() as int;
        let x2 = x1 + b1.len();
        let x3 = x2 + c1.len();
        let x4 = x3 + d1.len();
        if i < x1 {
            assert(f == a1[i]);
            assert(slop.contains(f));
            let j = choose|j: int| 0 <= j < slop.len() && slop[j] == f;
            assert(a2.contains(slop[j]));
            lemma_contains_key(a2, f);
            lemma_has_key_in(a2, b2, f);
            lemma_has_key_in(a2 + b2, c2, f);
            lemma_has_key_in(a2 + b2 + c2, d2, f);
            lemma_has_key_in(a2 + b2 + c2 + d2, e2, f);
        } else if i < x2 {
            assert(f == b1[i - x1]);
            assert(scripts::script_hits(p).contains(f));
            let j = choose|j: int| 0 <= j < scripts::script_hits(p).len() && scripts::script_hits(p)[j] == f;
            assert(b2.contains(scripts::script_hits(p)[j]));
            lemma_contains_key(b2, f);
            lemma_has_key_in(a2, b2, f);
            lemma_has_key_in(a2 + b2, c2, f);
            lemma_has_key_in(a2 + b2 + c2, d2, f);
            lemma_has_key_in(a2 + b2 + c2 + d2, e2, f);
        } else if i < x3 {
            assert(f == c1[i - x2]);
            assert(t1.contains(f));
            let k = choose|k: int| 0 <= k < t1.len() && t1[k] == f;
            assert(th.contains(t1[k]));
            let j = choose|j: int| 0 <= j < th.len() && th[j] == f;
            assert(t2.contains(th[j]));
            let m = choose|m: int| 0 <= m < t2.len() && t2[m] == f;
            assert(has_key(c2, t2[m]));
            lemma_has_key_in(a2, b2, f);
            lemma_has_key_in(a2 + b2, c2, f);
            lemma_has_key_in(a2 + b2 + c2, d2, f);
            lemma_has_key_in(a2 + b2 + c2 + d2, e2, f);
        } else if i < x4 {
            assert(f == d1[i - x3]);
            assert(drift::drift_finding(p, f.package, f));
            assert(drift::drifts(p, f.package));
            let m = choose|m: int| 0 <= m < d2.len() && (#[trigger] d2[m]).package == f.package;
            assert(drift::drift_finding(p, d2[m].package, d2[m]));
            assert(has_key(d2, f)) by {
                assert(d2[m].rule == f.rule);
            }
            lemma_has_key_in(a2 + b2 + c2, d2, f);
            lemma_has_key_in(a2 + b2 + c2 + d2, e2, f);
        } else {
            assert(f == e1[i - x4]);
            assert(tree.ecosystem == Ecosystem::PyPi);
            assert(pinning::pin_hits(p).contains(f));
            let j = choose|j: int| 0 <= j < pinning::pin_hits(p).len() && pinning::pin_hits(p)[j] == f;
            assert(e2.contains(pinning::pin_hits(p)[j]));
            lemma_contains_key(e2, f);
            lemma_has_key_in(a2 + b2 + c2 + d2, e2, f);
        }
    }
}

proof fn lemma_unmatched_empty(s1: Seq<FindingView>, s2: Seq<FindingView>)
    requires
        forall|i: int| 0 <= i < s1.len() ==> has_key(s2, #[trigger] s1[i]),
    ensures
        unmatched(s1, s2).len() == 0,
{
    broadcast use vstd::seq_lib::group_filter_ensures;
    broadcast use vstd::seq::Seq::lemma_filter_contains_rev;

    if unmatched(s1, s2).len() > 0 {
        let f = unmatched(s1, s2)[0];
        assert(unmatched(s1, s2).contains(f));
        assert(s1.contains(f));
        let i = choose|i: int| 0 <= i < s1.len() && s1[i] == f;
        assert(has_key(s2, s1[i]));
    }
}

/// Two trees with the same packages have no package added, removed or
/// changed between them, whatever else differs.
pub proof fn lemma_same_packages_move_nothing(before: Tree, after: Tree, corpus: Corpus, d: Diff)
    requires
        before.packages@ == after.packages@,
        diff_of(before, after, corpus, d),
    ensures
        d.added@.len() == 0,
        d.removed@.len() == 0,
        d.changed@.len() == 0,
{
    let p = before.packages@;
    lemma_no_identities(text::strings(d.added@), p);
    lemma_no_identities(text::strings(d.removed@), p);
    if d.changed@.len() > 0 {
        let r = rows(d.changed@)[0];
        assert(rows(d.changed@).contains(r));
        lemma_no_change_row(p, r);
    }
}

/// An unchanged tree diffs to nothing: no package moved, no finding
/// introduced or resolved, so there is nothing for `--fail-on` to fail.
pub proof fn lemma_unchanged_tree_diffs_to_nothing(tree: Tree, corpus: Corpus, d: Diff)
    requires
        diff_of(tree, tree, corpus, d),
    ensures
        d.added@.len() == 0,
        d.removed@.len() == 0,
        d.changed@.len() == 0,
        d.introduced@.len() == 0,
        d.resolved@.len() == 0,
{
    lemma_same_packages_move_nothing(tree, tree, corpus, d);
    let (fo, fa) = choose|fo: Seq<FindingView>, fa: Seq<FindingView>|
        #[trigger] all_findings(&tree, corpus, fo) && #[trigger] all_findings(&tree, corpus, fa)
            && rules::views(d.introduced@) == unmatched(fa, fo) && rules::views(d.resolved@)
            == unmatched(fo, fa);
    lemma_same_keys(&tree, corpus, fa, fo);
    lemma_same_keys(&tree, corpus, fo, fa);
    lemma_unmatched_empty(fa, fo);
    lemma_unmatched_empty(fo, fa);
    assert(rules::views(d.introduced@).len() == d.introduced@.len());
    assert(rules::views(d.resolved@).len() == d.resolved@.len());
}

/// A diff with something introduced is never empty: the prose and the exit
/// code agree.
pub proof fn lemma_failing_diff_is_not_empty(d: Diff)
    requires
        d.introduced@.len() > 0,
    ensures
        !(d.added@.len() == 0 && d.removed@.len() == 0 && d.changed@.len() == 0
            && d.introduced@.len() == 0 && d.resolved@.len() == 0),
{
}

} // verus!
