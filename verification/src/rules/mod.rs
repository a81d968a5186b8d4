//! What a scan produces.
pub mod drift;
pub mod pinning;
pub mod scripts;
pub mod slopsquat;
pub mod trivial;

use crate::corpus::{self, Corpus};
use crate::lock::{self, Format, Tree};
use crate::text;
use vstd::prelude::*;

verus! {

#[derive(Debug, Clone, Copy, PartialEq, Eq, PartialOrd, Ord, Structural)]
pub enum Severity {
    Low,
    Medium,
    High,
    Critical,
}

/// Where a severity sits, lowest first: the order `--fail-on` and the risk
/// band compare by.
pub open spec fn severity_level(s: Severity) -> int {
    match s {
        Severity::Low => 0,
        Severity::Medium => 1,
        Severity::High => 2,
        Severity::Critical => 3,
    }
}

pub open spec fn severity_name(s: Severity) -> Seq<char> {
    match s {
        Severity::Low => "low"@,
        Severity::Medium => "medium"@,
        Severity::High => "high"@,
        Severity::Critical => "critical"@,
    }
}

/// The severity a word names, ignoring ASCII case.
pub open spec fn severity_named(word: Seq<char>) -> Option<Severity> {
    let w = word.map_values(|c: char| text::lower(c));
    if w == "low"@ {
        Some(Severity::Low)
    } else if w == "medium"@ {
        Some(Severity::Medium)
    } else if w == "high"@ {
        Some(Severity::High)
    } else if w == "critical"@ {
        Some(Severity::Critical)
    } else {
        None
    }
}

fn is_word(w: &[char], word: &str) -> (r: bool)
    ensures
        r == (w@ == word@),
{
    let v = text::chars_of(word);
    text::same_chars(w, &v)
}

impl Severity {
    pub fn parse(s: &str) -> (r: Option<Self>)
        ensures
            r == severity_named(s@),
    {
        let chars = text::chars_of(s);
        let w = text::lowercase(&chars);
        if is_word(&w, "low") {
            Some(Severity::Low)
        } else if is_word(&w, "medium") {
            Some(Severity::Medium)
        } else if is_word(&w, "high") {
            Some(Severity::High)
        } else if is_word(&w, "critical") {
            Some(Severity::Critical)
        } else {
            None
        }
    }

    /// Lowest first, so a larger number is the worse finding.
    pub fn level(self) -> (n: u8)
        ensures
            n == severity_level(self),
    {
        match self {
            Severity::Low => 0,
            Severity::Medium => 1,
            Severity::High => 2,
            Severity::Critical => 3,
        }
    }

    /// The lower-case word every output prints.
    pub fn name(self) -> (s: &'static str)
        ensures
            s@ == severity_name(self),
    {
        match self {
            Severity::Low => "low",
            Severity::Medium => "medium",
            Severity::High => "high",
            Severity::Critical => "critical",
        }
    }
}

#[derive(Debug, Clone, Copy, PartialEq, Eq, Structural)]
pub enum Rule {
    Slopsquat,
    Trivial,
    InstallScript,
    Drift,
    Pinning,
}

pub open spec fn rule_rank(r: Rule) -> int {
    match r {
        Rule::Slopsquat => 0,
        Rule::InstallScript => 1,
        Rule::Trivial => 2,
        Rule::Drift => 3,
        Rule::Pinning => 4,
    }
}

pub open spec fn rule_heading(r: Rule) -> Seq<char> {
    match r {
        Rule::Slopsquat => "HALLUCINATION RISK"@,
        Rule::Trivial => "TRIVIAL"@,
        Rule::InstallScript => "INSTALL SCRIPTS"@,
        Rule::Drift => "VERSION DRIFT"@,
        Rule::Pinning => "UNPINNED"@,
    }
}

pub open spec fn rule_id(r: Rule) -> Seq<char> {
    match r {
        Rule::Slopsquat => "slopsquat"@,
        Rule::Trivial => "trivial"@,
        Rule::InstallScript => "install-script"@,
        Rule::Drift => "drift"@,
        Rule::Pinning => "pinning"@,
    }
}

/// Whether `rule` could have fired on `tree` at all, given the corpus.
pub open spec fn rule_applies(rule: Rule, tree: &Tree, corpus: Corpus) -> bool {
    match rule {
        Rule::Slopsquat => corpus.list(tree.ecosystem).len() > 0,
        Rule::InstallScript => tree.records_install_scripts,
        Rule::Pinning => lock::source_format(tree.source@) == Some(Format::Pip),
        Rule::Trivial | Rule::Drift => true,
    }
}

/// Every rule, in report order.
pub open spec fn all_rules() -> Seq<Rule> {
    seq![Rule::Slopsquat, Rule::InstallScript, Rule::Trivial, Rule::Drift, Rule::Pinning]
}

impl Rule {
    /// Every rule, in report order. `rank` is a match and this is a list, so
    /// the list is the one place a sixth rule can be forgotten.
    pub const ALL: [Rule; 5] = [
        Rule::Slopsquat,
        Rule::InstallScript,
        Rule::Trivial,
        Rule::Drift,
        Rule::Pinning,
    ];

    /// Whether this rule could have fired on this file at all. Not a finding:
    /// it changes what the report says, never the exit code.
    pub fn applies_to(self, tree: &Tree, corpus: &Corpus) -> (r: bool)
        ensures
            r == rule_applies(self, tree, *corpus),
    {
        match self {
            Rule::Slopsquat => corpus::names(corpus, tree.ecosystem).len() > 0,
            Rule::InstallScript => tree.records_install_scripts,
            Rule::Pinning => tree.format() == Some(Format::Pip),
            Rule::Trivial | Rule::Drift => true,
        }
    }

    /// Where this rule prints: threat, then waste, then what the file does not
    /// pin down. Fixed, so two scans of one project line up.
    pub fn rank(self) -> (n: usize)
        ensures
            n == rule_rank(self),
    {
        match self {
            Rule::Slopsquat => 0,
            Rule::InstallScript => 1,
            Rule::Trivial => 2,
            Rule::Drift => 3,
            Rule::Pinning => 4,
        }
    }

    pub fn heading(self) -> (s: &'static str)
        ensures
            s@ == rule_heading(self),
    {
        match self {
            Rule::Slopsquat => "HALLUCINATION RISK",
            Rule::Trivial => "TRIVIAL",
            Rule::InstallScript => "INSTALL SCRIPTS",
            Rule::Drift => "VERSION DRIFT",
            Rule::Pinning => "UNPINNED",
        }
    }

    pub fn id(self) -> (s: &'static str)
        ensures
            s@ == rule_id(self),
    {
        match self {
            Rule::Slopsquat => "slopsquat",
            Rule::Trivial => "trivial",
            Rule::InstallScript => "install-script",
            Rule::Drift => "drift",
            Rule::Pinning => "pinning",
        }
    }
}

/// The rules this file gives no signal for, in report order.
pub fn not_applicable(tree: &Tree, corpus: &Corpus) -> (out: Vec<Rule>)
    ensures
        out@ == all_rules().filter(|r: Rule| !rule_applies(r, tree, *corpus)),
{
    let all = Rule::ALL;
    let ghost rules = all_rules();
    proof {
        assert(all@ =~= rules);
    }
    let mut out: Vec<Rule> = Vec::new();
    for i in 0..all.len()
        invariant
            all@ == rules,
            rules.len() == 5,
            out@ == rules.take(i as int).filter(|r: Rule| !rule_applies(r, tree, *corpus)),
    {
        let r = all[i];
        proof {
            reveal(Seq::filter);
            assert(rules.take(i + 1).drop_last() =~= rules.take(i as int));
        }
        if !r.applies_to(tree, corpus) {
            out.push(r);
        }
    }
    proof {
        assert(rules.take(5) =~= rules);
    }
    out
}

#[derive(Debug, Clone)]
pub struct Finding {
    pub rule: Rule,
    pub severity: Severity,
    pub package: String,
    pub version: String,
    /// Rendered right of the package name. Says why this fired, in the terms
    /// the rule actually used, so a reader can disagree with it.
    pub detail: String,
}

/// A finding with its strings as characters.
pub struct FindingView {
    pub rule: Rule,
    pub severity: Severity,
    pub package: Seq<char>,
    pub version: Seq<char>,
    pub detail: Seq<char>,
}

impl View for Finding {
    type V = FindingView;

    open spec fn view(&self) -> FindingView {
        FindingView {
            rule: self.rule,
            severity: self.severity,
            package: self.package@,
            version: self.version@,
            detail: self.detail@,
        }
    }
}

pub open spec fn views(s: Seq<Finding>) -> Seq<FindingView> {
    s.map_values(|f: Finding| f@)
}

/// A finding built from its parts.
pub open spec fn finding(
    rule: Rule,
    severity: Severity,
    package: Seq<char>,
    version: Seq<char>,
    detail: Seq<char>,
) -> FindingView {
    FindingView { rule, severity, package, version, detail }
}

/// The keys a list of findings is sorted by.
#[derive(Clone, Copy)]
pub enum Order {
    /// Package name, byte order.
    Package,
    /// Package name, then version, byte order.
    PackageVersion,
    /// The rule's place in the report.
    Rank,
}

/// `a`'s key sorts strictly before `b`'s.
pub open spec fn precedes(by: Order, a: FindingView, b: FindingView) -> bool {
    match by {
        Order::Package => text::seq_lt(a.package, b.package),
        Order::PackageVersion => text::seq_lt(a.package, b.package) || (a.package == b.package
            && text::seq_lt(a.version, b.version)),
        Order::Rank => rule_rank(a.rule) < rule_rank(b.rule),
    }
}

/// No finding sorts strictly before one ahead of it.
pub open spec fn sorted_by(by: Order, s: Seq<FindingView>) -> bool {
    forall|i: int, j: int| 0 <= i < j < s.len() ==> !precedes(by, #[trigger] s[j], #[trigger] s[i])
}

/// `out` is `input` sorted by `by`, with findings of equal key kept in the
/// order they came in. That sort is unique, so this pins `out` down.
pub open spec fn stable_sort_of(by: Order, out: Seq<FindingView>, input: Seq<FindingView>) -> bool {
    exists|perm: Seq<int>| #[trigger] sorts_with(by, out, input, perm)
}

/// `perm` says where each element of `out` was in `input`.
pub open spec fn sorts_with(
    by: Order,
    out: Seq<FindingView>,
    input: Seq<FindingView>,
    perm: Seq<int>,
) -> bool {
    &&& out.len() == input.len()
    &&& perm.len() == out.len()
    &&& forall|i: int| 0 <= i < perm.len() ==> 0 <= #[trigger] perm[i] < input.len()
    &&& forall|i: int, j: int| 0 <= i < j < perm.len() ==> #[trigger] perm[i] != #[trigger] perm[j]
    &&& forall|i: int| 0 <= i < out.len() ==> #[trigger] out[i] == input[perm[i]]
    &&& sorted_by(by, out)
    &&& forall|i: int, j: int|
        0 <= i < j < out.len() && !precedes(by, #[trigger] out[i], #[trigger] out[j]) ==> perm[i]
            < perm[j]
}

/// `x` before `a`, and `a` no later than `b`: `x` before `b`.
proof fn lemma_precedes_chain(by: Order, x: FindingView, a: FindingView, b: FindingView)
    requires
        precedes(by, x, a),
        !precedes(by, b, a),
    ensures
        precedes(by, x, b),
{
    match by {
        Order::Package => {
            text::lemma_lt_total(a.package, b.package);
            if text::seq_lt(a.package, b.package) {
                text::lemma_lt_transitive(x.package, a.package, b.package);
            }
        },
        Order::PackageVersion => {
            text::lemma_lt_total(a.package, b.package);
            text::lemma_lt_total(a.version, b.version);
            if text::seq_lt(x.package, a.package) && text::seq_lt(a.package, b.package) {
                text::lemma_lt_transitive(x.package, a.package, b.package);
            }
            if x.package == a.package && text::seq_lt(a.package, b.package) {
            }
            if text::seq_lt(x.version, a.version) && text::seq_lt(a.version, b.version) {
                text::lemma_lt_transitive(x.version, a.version, b.version);
            }
        },
        Order::Rank => {},
    }
}

/// Two findings never precede each other.
proof fn lemma_precedes_asymmetric(by: Order, a: FindingView, b: FindingView)
    requires
        precedes(by, a, b),
    ensures
        !precedes(by, b, a),
{
    text::lemma_lt_asymmetric(a.package, b.package);
    text::lemma_lt_asymmetric(a.version, b.version);
    text::lemma_lt_irreflexive(a.package);
}

/// Whether `a`'s key sorts strictly before `b`'s.
fn comes_before(by: Order, a: &Finding, b: &Finding) -> (r: bool)
    ensures
        r == precedes(by, a@, b@),
{
    match by {
        Order::Package => text::less_str(a.package.as_str(), b.package.as_str()),
        Order::PackageVersion => {
            if text::less_str(a.package.as_str(), b.package.as_str()) {
                true
            } else if text::same(a.package.as_str(), b.package.as_str()) {
                text::less_str(a.version.as_str(), b.version.as_str())
            } else {
                false
            }
        },
        Order::Rank => a.rule.rank() < b.rule.rank(),
    }
}

/// `input` sorted by `by`, findings of equal key left in the order they came.
pub fn sort_findings(input: Vec<Finding>, by: Order) -> (out: Vec<Finding>)
    ensures
        stable_sort_of(by, views(out@), views(input@)),
{
    let ghost orig = views(input@);
    let n = input.len();
    let mut rest = input;
    let mut out: Vec<Finding> = Vec::new();
    let ghost mut perm: Seq<int> = Seq::empty();
    let mut k: usize = 0;
    proof {
        assert(views(rest@) =~= orig.subrange(0, n as int));
    }
    while k < n
        invariant
            k <= n,
            orig.len() == n,
            views(rest@) == orig.subrange(k as int, n as int),
            sorts_with(by, views(out@), orig.take(k as int), perm),
            forall|i: int| 0 <= i < perm.len() ==> #[trigger] perm[i] < k,
        decreases n - k,
    {
        proof {
            assert(views(rest@).len() == rest@.len());
            assert(views(rest@)[0] == rest@[0]@);
            assert(orig.subrange(k as int, n as int)[0] == orig[k as int]);
        }
        let ghost old_rest = rest@;
        let x = rest.remove(0);
        proof {
            assert(x@ == orig[k as int]);
            assert(rest@ =~= old_rest.subrange(1, old_rest.len() as int));
            assert forall|i: int| 0 <= i < rest@.len() implies #[trigger] views(rest@)[i]
                == orig.subrange(k + 1, n as int)[i] by {
                assert(views(rest@)[i] == rest@[i]@);
                assert(rest@[i] == old_rest[i + 1]);
                assert(views(old_rest)[i + 1] == old_rest[i + 1]@);
            }
            assert(views(rest@) =~= orig.subrange(k + 1, n as int));
        }
        let ghost before = views(out@);
        let mut p: usize = 0;
        while p < out.len() && !comes_before(by, &x, &out[p])
            invariant
                p <= out@.len(),
                before == views(out@),
                forall|j: int| 0 <= j < p ==> !precedes(by, x@, #[trigger] before[j]),
            decreases out@.len() - p,
        {
            p = p + 1;
        }
        proof {
            // Everything from `p` on sorts strictly after `x`.
            if p < before.len() {
                assert(precedes(by, x@, before[p as int]));
                assert forall|j: int| p <= j < before.len() implies precedes(
                    by,
                    x@,
                    #[trigger] before[j],
                ) by {
                    if j > p {
                        assert(!precedes(by, before[j], before[p as int]));
                        lemma_precedes_chain(by, x@, before[p as int], before[j]);
                    }
                }
            }
        }
        out.insert(p, x);
        proof {
            let after = views(out@);
            let np = perm.insert(p as int, k as int);
            assert(after =~= before.insert(p as int, x@));
            let taken = orig.take(k + 1);
            assert forall|i: int| 0 <= i < after.len() implies #[trigger] after[i] == taken[np[i]] by {
                if i < p {
                    assert(after[i] == before[i]);
                    assert(np[i] == perm[i]);
                } else if i == p {
                } else {
                    assert(after[i] == before[i - 1]);
                    assert(np[i] == perm[i - 1]);
                }
            }
            assert forall|i: int, j: int| 0 <= i < j < after.len() implies !precedes(
                by,
                #[trigger] after[j],
                #[trigger] after[i],
            ) by {
                if j < p {
                    assert(after[i] == before[i] && after[j] == before[j]);
                } else if j == p {
                    assert(after[i] == before[i]);
                    assert(after[j] == x@);
                } else if i > p {
                    assert(after[i] == before[i - 1] && after[j] == before[j - 1]);
                } else if i == p {
                    assert(after[i] == x@);
                    assert(after[j] == before[j - 1]);
                    assert(precedes(by, x@, before[j - 1]));
                    lemma_precedes_asymmetric(by, x@, before[j - 1]);
                } else {
                    assert(after[i] == before[i] && after[j] == before[j - 1]);
                    assert(i < j - 1);
                }
            }
            assert forall|i: int, j: int|
                0 <= i < j < after.len() && !precedes(
                    by,
                    #[trigger] after[i],
                    #[trigger] after[j],
                ) implies np[i] < np[j] by {
                if j < p {
                    assert(after[i] == before[i] && after[j] == before[j]);
                } else if j == p {
                } else if i > p {
                    assert(after[i] == before[i - 1] && after[j] == before[j - 1]);
                } else if i == p {
                    assert(after[j] == before[j - 1]);
                } else {
                    assert(after[i] == before[i] && after[j] == before[j - 1]);
                }
            }
            assert forall|i: int, j: int| 0 <= i < j < np.len() implies #[trigger] np[i]
                != #[trigger] np[j] by {
                if i < p && j < p {
                } else if i < p && j == p {
                } else if i < p {
                    assert(np[j] == perm[j - 1]);
                } else if i == p {
                    assert(np[j] == perm[j - 1]);
                } else {
                    assert(np[i] == perm[i - 1] && np[j] == perm[j - 1]);
                }
            }
            assert(sorts_with(by, after, taken, np));
            perm = np;
        }
        k = k + 1;
    }
    proof {
        assert(orig.take(n as int) =~= orig);
    }
    out
}

/// A stable sort drops nothing: every finding of the input is in the output.
pub proof fn lemma_sort_keeps_all(by: Order, out: Seq<FindingView>, input: Seq<FindingView>)
    requires
        stable_sort_of(by, out, input),
    ensures
        forall|j: int| 0 <= j < input.len() ==> out.contains(#[trigger] input[j]),
{
    let perm = choose|perm: Seq<int>| #[trigger] sorts_with(by, out, input, perm);
    let n = input.len() as int;
    assert(perm.no_duplicates()) by {
        assert forall|i: int, j: int| 0 <= i < perm.len() && 0 <= j < perm.len() && i != j implies perm[i]
            != perm[j] by {
            if i < j {
                assert(perm[i] != perm[j]);
            } else {
                assert(perm[j] != perm[i]);
            }
        }
    }
    perm.unique_seq_to_set();
    vstd::set_lib::lemma_int_range(0, n);
    let range = vstd::set_lib::set_int_range(0, n);
    assert(perm.to_set().subset_of(range)) by {
        assert forall|x: int| perm.to_set().contains(x) implies range.contains(x) by {
            let i = choose|i: int| 0 <= i < perm.len() && perm[i] == x;
            assert(0 <= perm[i] < n);
        }
    }
    vstd::set_lib::lemma_subset_equality(perm.to_set(), range);
    assert forall|j: int| 0 <= j < input.len() implies out.contains(#[trigger] input[j]) by {
        assert(range.contains(j));
        assert(perm.to_set().contains(j));
        let i = choose|i: int| 0 <= i < perm.len() && perm[i] == j;
        assert(out[i] == input[perm[i]]);
    }
}

/// A stable sort adds nothing: every finding of the output came from the
/// input.
pub proof fn lemma_sort_adds_nothing(by: Order, out: Seq<FindingView>, input: Seq<FindingView>)
    requires
        stable_sort_of(by, out, input),
    ensures
        forall|i: int| 0 <= i < out.len() ==> input.contains(#[trigger] out[i]),
{
    let perm = choose|perm: Seq<int>| #[trigger] sorts_with(by, out, input, perm);
    assert forall|i: int| 0 <= i < out.len() implies input.contains(#[trigger] out[i]) by {
        assert(out[i] == input[perm[i]]);
    }
}

/// The more severe of two, where any severity outranks none: what a run
/// over several lockfiles keeps as it goes.
pub fn worse(a: Option<Severity>, b: Option<Severity>) -> (r: Option<Severity>)
    ensures
        r is None <==> (a is None && b is None),
        r matches Some(s) ==> {
            &&& (a == Some(s) || b == Some(s))
            &&& a matches Some(x) ==> severity_level(x) <= severity_level(s)
            &&& b matches Some(y) ==> severity_level(y) <= severity_level(s)
        },
{
    match (a, b) {
        (Some(x), Some(y)) => if y.level() > x.level() {
            Some(y)
        } else {
            Some(x)
        },
        (None, y) => y,
        (x, None) => x,
    }
}

/// The worst severity among `findings`, or `None` when there are none.
pub fn worst_of(findings: &[Finding]) -> (r: Option<Severity>)
    ensures
        r is None <==> findings@.len() == 0,
        r matches Some(s) ==> {
            &&& exists|i: int| 0 <= i < findings@.len() && (#[trigger] findings@[i]).severity == s
            &&& forall|i: int|
                0 <= i < findings@.len() ==> severity_level((#[trigger] findings@[i]).severity)
                    <= severity_level(s)
        },
{
    let mut best: Option<Severity> = None;
    for i in 0..findings.len()
        invariant
            best is None <==> i == 0,
            best matches Some(s) ==> {
                &&& exists|j: int| 0 <= j < i && (#[trigger] findings@[j]).severity == s
                &&& forall|j: int|
                    0 <= j < i ==> severity_level((#[trigger] findings@[j]).severity)
                        <= severity_level(s)
            },
    {
        let s = findings[i].severity;
        best = match best {
            None => Some(s),
            Some(b) => if s.level() > b.level() {
                Some(s)
            } else {
                Some(b)
            },
        };
    }
    best
}

} // verus!
