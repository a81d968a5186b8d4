//! One name, installed at more than one version.
//!
//! npm deduplicates what it can and nests what it cannot, so a name that
//! appears at two versions is the format spelling duplication, and this rule
//! needs no resolver to read it. Medium: nothing is exploitable because a
//! package is installed twice, but when an advisory lands on that name the bump
//! in your own manifest moves one copy and leaves the other where it was.
use crate::lock::{Package, Tree};
use crate::rules::{self, Finding, FindingView, Rule, Severity};
use crate::semver::{self, Version};
use crate::text;
use std::cmp::Ordering;
use vstd::prelude::*;

verus! {

/// Some third-party package in `p` is called `name`.
pub open spec fn has_name(p: Seq<Package>, name: Seq<char>) -> bool {
    exists|i: int| 0 <= i < p.len() && !p[i].first_party && (#[trigger] p[i].name@) == name
}

/// Some third-party package in `p` is `name` at `version`.
pub open spec fn has_version(p: Seq<Package>, name: Seq<char>, version: Seq<char>) -> bool {
    exists|i: int|
        0 <= i < p.len() && !p[i].first_party && (#[trigger] p[i].name@) == name && p[i].version@
            == version
}

/// `name` is installed at two different versions.
pub open spec fn drifts(p: Seq<Package>, name: Seq<char>) -> bool {
    exists|a: Seq<char>, b: Seq<char>|
        a != b && #[trigger] has_version(p, name, a) && #[trigger] has_version(p, name, b)
}

/// `vs` lists every version `name` is installed at, in byte order.
pub open spec fn lists_versions(p: Seq<Package>, name: Seq<char>, vs: Seq<Seq<char>>) -> bool {
    &&& text::strictly_sorted(vs)
    &&& forall|v: Seq<char>| #[trigger] vs.contains(v) <==> has_version(p, name, v)
}

/// `a` is listed before `b`. Versions that parse go by semver precedence,
/// and by bytes where precedence ties (they differ only in build metadata or
/// in spelling, such as a leading `v`). A version that does not parse goes
/// after every one that does, and such versions go by bytes among themselves.
pub open spec fn version_before(a: Seq<char>, b: Seq<char>) -> bool {
    match (semver::version_of(a), semver::version_of(b)) {
        (Some(x), Some(y)) => semver::parts_order(x, y) < 0 || (semver::parts_order(x, y) == 0
            && text::seq_lt(a, b)),
        (Some(_), None) => true,
        (None, Some(_)) => false,
        (None, None) => text::seq_lt(a, b),
    }
}

/// Each version of `s` is listed before the ones after it.
pub open spec fn ranked(s: Seq<Seq<char>>) -> bool {
    forall|i: int, j: int| 0 <= i < j < s.len() ==> version_before(#[trigger] s[i], #[trigger] s[j])
}

/// `vs` lists every version `name` is installed at, lowest first.
pub open spec fn ranks_versions(p: Seq<Package>, name: Seq<char>, vs: Seq<Seq<char>>) -> bool {
    &&& ranked(vs)
    &&& forall|v: Seq<char>| #[trigger] vs.contains(v) <==> has_version(p, name, v)
}

/// Listing order is a strict total order on version strings.
pub proof fn lemma_before_laws(a: Seq<char>, b: Seq<char>, c: Seq<char>)
    ensures
        !version_before(a, a),
        version_before(a, b) ==> !version_before(b, a),
        a != b ==> version_before(a, b) || version_before(b, a),
        version_before(a, b) && version_before(b, c) ==> version_before(a, c),
{
    let z = (0u64, 0u64, 0u64, Seq::<Seq<char>>::empty());
    let x = match semver::version_of(a) {
        Some(t) => t,
        None => z,
    };
    let y = match semver::version_of(b) {
        Some(t) => t,
        None => z,
    };
    let w = match semver::version_of(c) {
        Some(t) => t,
        None => z,
    };
    semver::lemma_order_laws(x, y, w);
    semver::lemma_order_laws(y, x, w);
    text::lemma_lt_irreflexive(a);
    text::lemma_lt_asymmetric(a, b);
    text::lemma_lt_total(a, b);
    if text::seq_lt(a, b) && text::seq_lt(b, c) {
        text::lemma_lt_transitive(a, b, c);
    }
}

pub open spec fn drift_detail(vs: Seq<Seq<char>>) -> Seq<char> {
    text::decimal(vs.len()) + " versions: "@ + text::join(vs, ", "@)
}

/// What the finding for `name` says.
pub open spec fn drift_finding(p: Seq<Package>, name: Seq<char>, f: FindingView) -> bool {
    exists|vs: Seq<Seq<char>>|
        #[trigger] ranks_versions(p, name, vs) && f == rules::finding(
            Rule::Drift,
            Severity::Medium,
            name,
            seq![],
            drift_detail(vs),
        )
}

/// `d` is the drift findings of `p`: one per name installed at two or more
/// versions, each saying which, lowest first; the findings in byte order of
/// name.
pub open spec fn drift_listing(p: Seq<Package>, d: Seq<FindingView>) -> bool {
    &&& forall|i: int, j: int|
        0 <= i < j < d.len() ==> text::seq_lt((#[trigger] d[i]).package, (#[trigger] d[j]).package)
    &&& forall|i: int| 0 <= i < d.len() ==> drift_finding(p, (#[trigger] d[i]).package, d[i])
    &&& forall|name: Seq<char>|
        drifts(p, name) <==> exists|i: int| 0 <= i < d.len() && (#[trigger] d[i]).package == name
}

/// Every distinct third-party name, in byte order.
pub(crate) fn names(p: &Vec<Package>) -> (out: Vec<Vec<char>>)
    ensures
        text::strictly_sorted(text::seqs(out@)),
        forall|n: Seq<char>| #[trigger] text::seqs(out@).contains(n) <==> has_name(p@, n),
{
    let mut out: Vec<Vec<char>> = Vec::new();
    for i in 0..p.len()
        invariant
            text::strictly_sorted(text::seqs(out@)),
            forall|n: Seq<char>| #[trigger]
                text::seqs(out@).contains(n) <==> has_name(p@.take(i as int), n),
    {
        if !p[i].first_party {
            let name = text::chars_of(p[i].name.as_str());
            text::insert_unique(&mut out, name);
        }
        proof {
            let t = p@.take(i + 1);
            assert forall|n: Seq<char>| #[trigger]
                text::seqs(out@).contains(n) <==> has_name(t, n) by {
                if has_name(t, n) {
                    let j = choose|j: int| 0 <= j < t.len() && !t[j].first_party && t[j].name@ == n;
                    if j < i {
                        assert(p@.take(i as int)[j] == t[j]);
                    }
                }
                if has_name(p@.take(i as int), n) {
                    let j = choose|j: int|
                        0 <= j < i && !p@.take(i as int)[j].first_party && p@.take(
                            i as int,
                        )[j].name@ == n;
                    assert(t[j] == p@.take(i as int)[j]);
                }
                if !p[i as int].first_party && n == p[i as int].name@ {
                    assert(t[i as int] == p[i as int]);
                }
            }
        }
    }
    proof {
        assert(p@.take(p@.len() as int) =~= p@);
    }
    out
}

/// Every version `name` is installed at, in byte order.
pub(crate) fn versions(p: &Vec<Package>, name: &Vec<char>) -> (out: Vec<Vec<char>>)
    ensures
        lists_versions(p@, name@, text::seqs(out@)),
{
    let mut out: Vec<Vec<char>> = Vec::new();
    for i in 0..p.len()
        invariant
            lists_versions(p@.take(i as int), name@, text::seqs(out@)),
    {
        let mut hit = false;
        if !p[i].first_party {
            let n = text::chars_of(p[i].name.as_str());
            if text::same_chars(&n, name) {
                let v = text::chars_of(p[i].version.as_str());
                text::insert_unique(&mut out, v);
                hit = true;
            }
        }
        proof {
            let t = p@.take(i + 1);
            let s = p@.take(i as int);
            assert forall|v: Seq<char>| #[trigger]
                text::seqs(out@).contains(v) <==> has_version(t, name@, v) by {
                if has_version(t, name@, v) {
                    let j = choose|j: int|
                        0 <= j < t.len() && !t[j].first_party && t[j].name@ == name@ && t[j].version@
                            == v;
                    if j < i {
                        assert(s[j] == t[j]);
                        assert(has_version(s, name@, v));
                    }
                }
                if has_version(s, name@, v) {
                    let j = choose|j: int|
                        0 <= j < s.len() && !s[j].first_party && s[j].name@ == name@ && s[j].version@
                            == v;
                    assert(t[j] == s[j]);
                }
                if hit && v == p[i as int].version@ {
                    assert(t[i as int] == p[i as int]);
                }
            }
        }
    }
    proof {
        assert(p@.take(p@.len() as int) =~= p@);
    }
    out
}

/// `a` is listed before `b`.
fn before(a: &Vec<char>, b: &Vec<char>) -> (r: bool)
    ensures
        r == version_before(a@, b@),
{
    let sa = text::string_of(a.as_slice());
    let sb = text::string_of(b.as_slice());
    match (Version::parse(sa.as_str()), Version::parse(sb.as_str())) {
        (Some(x), Some(y)) => match x.precedence(&y) {
            Ordering::Less => true,
            Ordering::Equal => text::less(a.as_slice(), b.as_slice()),
            Ordering::Greater => false,
        },
        (Some(_), None) => true,
        (None, Some(_)) => false,
        (None, None) => text::less(a.as_slice(), b.as_slice()),
    }
}

/// A version put where the scan stopped keeps a ranked list ranked.
proof fn lemma_insert_ranked(so: Seq<Seq<char>>, v: Seq<char>, p: int)
    requires
        ranked(so),
        0 <= p <= so.len(),
        forall|q: int| 0 <= q < p ==> !version_before(v, #[trigger] so[q]),
        p < so.len() ==> version_before(v, so[p]),
        forall|q: int| 0 <= q < so.len() ==> v != #[trigger] so[q],
    ensures
        ranked(so.insert(p, v)),
        forall|x: Seq<char>| #[trigger] so.insert(p, v).contains(x) <==> (so.contains(x) || x == v),
{
    let sn = so.insert(p, v);
    assert forall|a: int, b: int| 0 <= a < b < sn.len() implies version_before(
        #[trigger] sn[a],
        #[trigger] sn[b],
    ) by {
        if b < p {
            assert(sn[a] == so[a] && sn[b] == so[b]);
        } else if b == p {
            assert(sn[a] == so[a]);
            lemma_before_laws(so[a], v, v);
        } else if a > p {
            assert(sn[a] == so[a - 1] && sn[b] == so[b - 1]);
        } else if a == p {
            assert(sn[b] == so[b - 1]);
            if b - 1 > p {
                lemma_before_laws(v, so[p], so[b - 1]);
            }
        } else {
            assert(sn[a] == so[a] && sn[b] == so[b - 1]);
        }
    }
    assert forall|x: Seq<char>| #[trigger] sn.contains(x) <==> (so.contains(x) || x == v) by {
        if sn.contains(x) {
            let k = choose|k: int| 0 <= k < sn.len() && sn[k] == x;
            if k < p {
                assert(so[k] == x);
            } else if k > p {
                assert(so[k - 1] == x);
            }
        }
        if so.contains(x) {
            let k = choose|k: int| 0 <= k < so.len() && so[k] == x;
            if k < p {
                assert(sn[k] == x);
            } else {
                assert(sn[k + 1] == x);
            }
        }
        if x == v {
            assert(sn[p] == x);
        }
    }
}

/// The distinct versions of `vs`, lowest first.
fn rank(vs: &Vec<Vec<char>>) -> (out: Vec<Vec<char>>)
    requires
        text::strictly_sorted(text::seqs(vs@)),
    ensures
        out@.len() == vs@.len(),
        ranked(text::seqs(out@)),
        forall|v: Seq<char>| #[trigger] text::seqs(out@).contains(v) <==> text::seqs(vs@).contains(v),
{
    let ghost sv = text::seqs(vs@);
    let mut out: Vec<Vec<char>> = Vec::new();
    for i in 0..vs.len()
        invariant
            sv == text::seqs(vs@),
            text::strictly_sorted(sv),
            out@.len() == i,
            ranked(text::seqs(out@)),
            forall|v: Seq<char>| #[trigger] text::seqs(out@).contains(v) <==> sv.take(i as int).contains(v),
    {
        let v = text::slice(vs[i].as_slice(), 0, vs[i].len());
        proof {
            assert(vs@[i as int]@.subrange(0, vs@[i as int]@.len() as int) =~= vs@[i as int]@);
            assert(v@ == sv[i as int]);
            if sv.take(i as int).contains(v@) {
                let j = choose|j: int| 0 <= j < i && sv.take(i as int)[j] == v@;
                assert(sv[j] == sv.take(i as int)[j]);
                text::lemma_lt_irreflexive(v@);
            }
        }
        let ghost so = text::seqs(out@);
        let mut p: usize = 0;
        while p < out.len() && !before(&v, &out[p])
            invariant
                so == text::seqs(out@),
                p <= out@.len(),
                forall|q: int| 0 <= q < p ==> !version_before(v@, #[trigger] so[q]),
            decreases out@.len() - p,
        {
            p = p + 1;
        }
        proof {
            assert forall|q: int| 0 <= q < so.len() implies v@ != #[trigger] so[q] by {
                assert(so.contains(so[q]));
            }
        }
        out.insert(p, v);
        proof {
            lemma_insert_ranked(so, v@, p as int);
            assert(text::seqs(out@) =~= so.insert(p as int, v@));
            let t0 = sv.take(i as int);
            let t1 = sv.take(i + 1);
            assert(t1 =~= t0.push(v@));
            assert forall|x: Seq<char>| #[trigger] t1.contains(x) <==> (t0.contains(x) || x == v@) by {
                if t1.contains(x) {
                    let k = choose|k: int| 0 <= k < t1.len() && t1[k] == x;
                    if k < t0.len() {
                        assert(t0[k] == x);
                    }
                }
                if t0.contains(x) {
                    let k = choose|k: int| 0 <= k < t0.len() && t0[k] == x;
                    assert(t1[k] == x);
                }
                if x == v@ {
                    assert(t1[t0.len() as int] == x);
                }
            }
        }
    }
    proof {
        assert(sv.take(vs@.len() as int) =~= sv);
    }
    out
}

/// The finding for `name`, when it is installed at two or more versions.
fn finding_for(p: &Vec<Package>, name: &Vec<char>) -> (r: Option<Finding>)
    ensures
        r is Some <==> drifts(p@, name@),
        r matches Some(f) ==> f.package@ == name@ && drift_finding(p@, name@, f@),
{
    let vs = versions(p, name);
    let ghost s = text::seqs(vs@);
    if vs.len() >= 2 {
        let rs = rank(&vs);
        let ghost r = text::seqs(rs@);
        let mut detail = text::decimal_of(rs.len() as u64);
        text::append(&mut detail, " versions: ");
        let joined = text::join_of(&rs, ", ");
        text::append(&mut detail, joined.as_str());
        let f = Finding {
            rule: Rule::Drift,
            severity: Severity::Medium,
            package: text::string_of(name),
            version: String::new(),
            detail,
        };
        proof {
            assert(f@ == rules::finding(Rule::Drift, Severity::Medium, name@, seq![], drift_detail(r)));
            assert(ranks_versions(p@, name@, r));
            assert(s[0] != s[1]) by {
                text::lemma_lt_irreflexive(s[0]);
            }
            assert(s.contains(s[0]) && s.contains(s[1]));
            assert(has_version(p@, name@, s[0]) && has_version(p@, name@, s[1]));
        }
        Some(f)
    } else {
        proof {
            if drifts(p@, name@) {
                let (a, b) = choose|a: Seq<char>, b: Seq<char>|
                    a != b && #[trigger] has_version(p@, name@, a) && #[trigger] has_version(
                        p@,
                        name@,
                        b,
                    );
                assert(s.contains(a) && s.contains(b));
                let ia = choose|x: int| 0 <= x < s.len() && s[x] == a;
                let ib = choose|x: int| 0 <= x < s.len() && s[x] == b;
                assert(false);
            }
        }
        None
    }
}

/// One finding per third-party name installed at two or more versions,
/// sorted by name.
pub fn scan(tree: &Tree) -> (out: Vec<Finding>)
    ensures
        drift_listing(tree.packages@, rules::views(out@)),
{
    let all = names(&tree.packages);
    let ghost p = tree.packages@;
    let ghost sa = text::seqs(all@);
    let mut out: Vec<Finding> = Vec::new();
    for k in 0..all.len()
        invariant
            p == tree.packages@,
            sa == text::seqs(all@),
            text::strictly_sorted(sa),
            forall|i: int| 0 <= i < out@.len() ==> sa.take(k as int).contains(#[trigger] out@[i].package@),
            forall|i: int, j: int|
                0 <= i < j < out@.len() ==> text::seq_lt(
                    (#[trigger] out@[i]).package@,
                    (#[trigger] out@[j]).package@,
                ),
            forall|i: int| 0 <= i < out@.len() ==> drift_finding(p, (#[trigger] out@[i]).package@, out@[i]@),
            forall|j: int|
                0 <= j < k ==> (drifts(p, #[trigger] sa[j]) <==> exists|i: int|
                    0 <= i < out@.len() && (#[trigger] out@[i]).package@ == sa[j]),
    {
        let name = &all[k];
        proof {
            assert(sa[k as int] == name@);
        }
        let ghost old_out = out@;
        match finding_for(&tree.packages, name) {
            Some(f) => {
                proof {
                    assert forall|i: int| 0 <= i < out@.len() implies text::seq_lt(
                        (#[trigger] out@[i]).package@,
                        name@,
                    ) by {
                        let j = choose|j: int| 0 <= j < k && sa.take(k as int)[j] == out@[i].package@;
                        assert(sa[j] == sa.take(k as int)[j]);
                    }
                }
                out.push(f);
            },
            None => {},
        }
        proof {
            assert forall|i: int| 0 <= i < out@.len() implies sa.take(k + 1).contains(
                #[trigger] out@[i].package@,
            ) by {
                if i < old_out.len() {
                    assert(out@[i] == old_out[i]);
                    let j = choose|j: int| 0 <= j < k && sa.take(k as int)[j] == old_out[i].package@;
                    assert(sa.take(k + 1)[j] == sa.take(k as int)[j]);
                } else {
                    assert(sa.take(k + 1)[k as int] == name@);
                }
            }
            assert forall|j: int|
                0 <= j < k + 1 implies (drifts(p, #[trigger] sa[j]) <==> exists|i: int|
                    0 <= i < out@.len() && (#[trigger] out@[i]).package@ == sa[j]) by {
                if j < k {
                    text::lemma_lt_irreflexive(sa[j]);
                    if exists|i: int| 0 <= i < old_out.len() && (#[trigger] old_out[i]).package@ == sa[j] {
                        let i = choose|i: int|
                            0 <= i < old_out.len() && (#[trigger] old_out[i]).package@ == sa[j];
                        assert(out@[i] == old_out[i]);
                    }
                    if exists|i: int| 0 <= i < out@.len() && (#[trigger] out@[i]).package@ == sa[j] {
                        let i = choose|i: int| 0 <= i < out@.len() && (#[trigger] out@[i]).package@ == sa[j];
                        if i < old_out.len() {
                            assert(old_out[i] == out@[i]);
                        } else {
                            assert(text::seq_lt(sa[j], sa[k as int]));
                        }
                    }
                } else {
                    if out@.len() > old_out.len() {
                        assert(out@[old_out.len() as int].package@ == name@);
                    }
                    if exists|i: int| 0 <= i < out@.len() && (#[trigger] out@[i]).package@ == sa[j] {
                        let i = choose|i: int| 0 <= i < out@.len() && (#[trigger] out@[i]).package@ == sa[j];
                        if i < old_out.len() {
                            assert(out@[i] == old_out[i]);
                            let jj = choose|jj: int| 0 <= jj < k && sa.take(k as int)[jj] == old_out[i].package@;
                            assert(sa[jj] == sa.take(k as int)[jj]);
                            text::lemma_lt_irreflexive(name@);
                        }
                    }
                }
            }
        }
    }
    proof {
        let d = rules::views(out@);
        assert forall|i: int| 0 <= i < out@.len() implies #[trigger] d[i] == out@[i]@ by {}
        assert forall|name: Seq<char>|
            drifts(p, name) <==> exists|i: int|
                0 <= i < out@.len() && (#[trigger] out@[i]).package@ == name by {
            if drifts(p, name) {
                let (a, b) = choose|a: Seq<char>, b: Seq<char>|
                    a != b && #[trigger] has_version(p, name, a) && #[trigger] has_version(
                        p,
                        name,
                        b,
                    );
                let i = choose|i: int|
                    0 <= i < p.len() && !p[i].first_party && (#[trigger] p[i].name@) == name
                        && p[i].version@ == a;
                assert(has_name(p, name));
                assert(sa.contains(name));
                let j = choose|j: int| 0 <= j < sa.len() && sa[j] == name;
            }
            if exists|i: int| 0 <= i < out@.len() && (#[trigger] out@[i]).package@ == name {
                let i = choose|i: int| 0 <= i < out@.len() && (#[trigger] out@[i]).package@ == name;
                let j = choose|j: int| 0 <= j < all@.len() && sa.take(all@.len() as int)[j] == out@[i].package@;
                assert(sa[j] == sa.take(all@.len() as int)[j]);
            }
        }
        assert forall|i: int, j: int| 0 <= i < j < d.len() implies text::seq_lt(
            (#[trigger] d[i]).package,
            (#[trigger] d[j]).package,
        ) by {
            assert(d[i] == out@[i]@ && d[j] == out@[j]@);
        }
        assert forall|i: int| 0 <= i < d.len() implies drift_finding(
            p,
            (#[trigger] d[i]).package,
            d[i],
        ) by {
            assert(d[i] == out@[i]@);
        }
        assert forall|name: Seq<char>|
            drifts(p, name) <==> exists|i: int| 0 <= i < d.len() && (#[trigger] d[i]).package == name by {
            if exists|i: int| 0 <= i < d.len() && (#[trigger] d[i]).package == name {
                let i = choose|i: int| 0 <= i < d.len() && (#[trigger] d[i]).package == name;
                assert(d[i] == out@[i]@);
            }
            if drifts(p, name) {
                let i = choose|i: int| 0 <= i < out@.len() && (#[trigger] out@[i]).package@ == name;
                assert(d[i] == out@[i]@);
            }
        }
    }
    out
}

} // verus!
