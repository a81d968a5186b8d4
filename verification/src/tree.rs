//! `stranger tree <pkg>` — clause 3, as something you can look at.
//!
//! The third clause of the co-occurrence rule — *nothing in the lockfile
//! depends on it* — is a claim about a graph nobody can see. This prints the
//! graph around one name: every edge into it, the count of them, and every
//! edge out.
//!
//! A lockfile graph is a DAG with cycles in it as well, so a node's
//! dependencies are expanded exactly once: the second time it is reached it
//! prints as a leaf, marked `cycle` when it is still open on the path above and
//! `(*)` when it was finished somewhere earlier. Neither marker is dropped
//! silently.
use crate::corpus;
use crate::distance::{self, MAX_EDIT_DISTANCE};
use crate::lock::{self, Package, Tree};
use crate::report;
use crate::rules::slopsquat;
use crate::semver::{self, Version};
use crate::term::{self, Style, Term};
use crate::text;
use core::cmp::Ordering;
use vstd::prelude::*;

verus! {

/// How deep the out-edge tree prints before it stops and says so.
pub const DEFAULT_DEPTH: usize = 3;

/// How many near names to list when the package is not there.
pub const MAX_NEAR: usize = 8;

/// Left column for the section labels. `depended on by` is the widest.
pub const LABEL: usize = 17;

/// Name column floor in the near-miss list, the same one `report` uses.
pub const NEAR_MIN: usize = 24;

/// -1, 0 or 1 as `a` sorts before, with or after `b` in byte order.
pub open spec fn bytes_order(a: Seq<char>, b: Seq<char>) -> int {
    if text::seq_lt(a, b) {
        -1
    } else if text::seq_lt(b, a) {
        1
    } else {
        0
    }
}

/// Name, then semver precedence where both versions parse (a version that
/// parses sorts first), then the version's bytes, the key, and the index: a
/// total order over entries that does not depend on the reader's order.
#[verifier::opaque]
pub open spec fn pkg_order(pkgs: Seq<Package>, a: int, b: int) -> int {
    let x = pkgs[a];
    let y = pkgs[b];
    let n = bytes_order(x.name@, y.name@);
    let v = match (semver::version_of(x.version@), semver::version_of(y.version@)) {
        (Some(p), Some(q)) => semver::parts_order(p, q),
        (Some(_), None) => -1,
        (None, Some(_)) => 1,
        (None, None) => 0,
    };
    if n != 0 {
        n
    } else if v != 0 {
        v
    } else if bytes_order(x.version@, y.version@) != 0 {
        bytes_order(x.version@, y.version@)
    } else if bytes_order(x.key@, y.key@) != 0 {
        bytes_order(x.key@, y.key@)
    } else if a < b {
        -1
    } else if a > b {
        1
    } else {
        0
    }
}

fn bytes_compare(a: &str, b: &str) -> (r: i8)
    ensures
        r == bytes_order(a@, b@),
{
    if text::less_str(a, b) {
        -1
    } else if text::less_str(b, a) {
        1
    } else {
        0
    }
}

fn version_compare(x: &str, y: &str) -> (r: i8)
    ensures
        r == match (semver::version_of(x@), semver::version_of(y@)) {
            (Some(p), Some(q)) => semver::parts_order(p, q),
            (Some(_), None) => -1,
            (None, Some(_)) => 1,
            (None, None) => 0,
        },
{
    match (Version::parse(x), Version::parse(y)) {
        (Some(p), Some(q)) => match {
            proof {
                semver::lemma_order_range(
                    (p.major, p.minor, p.patch, text::strings(p.pre@)),
                    (q.major, q.minor, q.patch, text::strings(q.pre@)),
                );
            }
            p.precedence(&q)
        } {
            Ordering::Less => -1,
            Ordering::Greater => 1,
            Ordering::Equal => 0,
        },
        (Some(_), None) => -1,
        (None, Some(_)) => 1,
        (None, None) => 0,
    }
}

fn order_value(pkgs: &Vec<Package>, a: usize, b: usize) -> (r: i8)
    requires
        a < pkgs@.len(),
        b < pkgs@.len(),
    ensures
        r == pkg_order(pkgs@, a as int, b as int),
{
    proof {
        reveal(pkg_order);
    }
    let x = &pkgs[a];
    let y = &pkgs[b];
    let n = bytes_compare(x.name.as_str(), y.name.as_str());
    if n != 0 {
        return n;
    }
    let v = version_compare(x.version.as_str(), y.version.as_str());
    if v != 0 {
        return v;
    }
    let w = bytes_compare(x.version.as_str(), y.version.as_str());
    if w != 0 {
        return w;
    }
    let k = bytes_compare(x.key.as_str(), y.key.as_str());
    if k != 0 {
        return k;
    }
    if a < b {
        -1
    } else if a > b {
        1
    } else {
        0
    }
}

pub open spec fn pkg_order_at(pkgs: Seq<Package>, a: usize, b: usize) -> int {
    pkg_order(pkgs, a as int, b as int)
}

/// Where entry `a` sorts against entry `b`.
fn order(pkgs: &Vec<Package>, a: usize, b: usize) -> (r: Ordering)
    requires
        a < pkgs@.len(),
        b < pkgs@.len(),
    ensures
        r == semver::ordering_of(pkg_order_at(pkgs@, a, b)),
{
    let v = order_value(pkgs, a, b);
    if v < 0 {
        Ordering::Less
    } else if v > 0 {
        Ordering::Greater
    } else {
        Ordering::Equal
    }
}

/// `x` placed into `s` before the first entry it sorts strictly before.
pub open spec fn insert_ordered(pkgs: Seq<Package>, x: usize, s: Seq<usize>) -> Seq<usize>
    decreases s.len(),
{
    if s.len() == 0 {
        seq![x]
    } else if pkg_order(pkgs, x as int, s[0] as int) < 0 {
        seq![x] + s
    } else {
        seq![s[0]] + insert_ordered(pkgs, x, s.drop_first())
    }
}

/// `s` sorted by `pkg_order`, by insertion from the front: entries that
/// compare equal keep the order they came in.
pub open spec fn sorted_indices(pkgs: Seq<Package>, s: Seq<usize>) -> Seq<usize>
    decreases s.len(),
{
    if s.len() == 0 {
        seq![]
    } else {
        insert_ordered(pkgs, s.last(), sorted_indices(pkgs, s.drop_last()))
    }
}

proof fn lemma_insert_ordered(pkgs: Seq<Package>, x: usize, s: Seq<usize>, p: int)
    requires
        0 <= p <= s.len(),
        forall|j: int| 0 <= j < p ==> pkg_order(pkgs, x as int, #[trigger] s[j] as int) >= 0,
        p < s.len() ==> pkg_order(pkgs, x as int, s[p] as int) < 0,
    ensures
        insert_ordered(pkgs, x, s) == s.insert(p, x),
    decreases s.len(),
{
    if s.len() == 0 {
        assert(s.insert(p, x) =~= seq![x]);
    } else if p == 0 {
        assert(s.insert(0, x) =~= seq![x] + s);
    } else {
        assert forall|j: int| 0 <= j < p - 1 implies pkg_order(
            pkgs,
            x as int,
            #[trigger] s.drop_first()[j] as int,
        ) >= 0 by {
            assert(s.drop_first()[j] == s[j + 1]);
        }
        lemma_insert_ordered(pkgs, x, s.drop_first(), p - 1);
        assert(s.insert(p, x) =~= seq![s[0]] + s.drop_first().insert(p - 1, x));
    }
}

/// `idx` sorted by `pkg_order`.
fn sort_indices(pkgs: &Vec<Package>, idx: &Vec<usize>) -> (out: Vec<usize>)
    requires
        forall|i: int| 0 <= i < idx@.len() ==> #[trigger] idx@[i] < pkgs@.len(),
    ensures
        out@ == sorted_indices(pkgs@, idx@),
        forall|i: int| 0 <= i < out@.len() ==> #[trigger] out@[i] < pkgs@.len(),
        out@.len() == idx@.len(),
{
    let mut out: Vec<usize> = Vec::new();
    for k in 0..idx.len()
        invariant
            forall|i: int| 0 <= i < idx@.len() ==> #[trigger] idx@[i] < pkgs@.len(),
            out@ == sorted_indices(pkgs@, idx@.take(k as int)),
            forall|i: int| 0 <= i < out@.len() ==> #[trigger] out@[i] < pkgs@.len(),
            out@.len() == k,
    {
        let x = idx[k];
        let mut p: usize = 0;
        while p < out.len() && order_value(pkgs, x, out[p]) >= 0
            invariant
                p <= out@.len(),
                x < pkgs@.len(),
                forall|i: int| 0 <= i < out@.len() ==> #[trigger] out@[i] < pkgs@.len(),
                forall|j: int| 0 <= j < p ==> pkg_order(pkgs@, x as int, #[trigger] out@[j] as int) >= 0,
            decreases out@.len() - p,
        {
            p = p + 1;
        }
        proof {
            lemma_insert_ordered(pkgs@, x, out@, p as int);
            assert(idx@.take(k + 1).drop_last() =~= idx@.take(k as int));
            assert(idx@.take(k + 1).last() == x);
        }
        out.insert(p, x);
    }
    proof {
        assert(idx@.take(idx@.len() as int) =~= idx@);
    }
    out
}

/// One place the name turned up: a lockfile, and one entry in it.
pub struct Hit<'a> {
    pub tree: &'a Tree,
    pub index: usize,
}

/// The entries with an edge into `index`, one per edge, in edge order.
pub open spec fn edge_sources(edges: Seq<(usize, usize)>, index: usize) -> Seq<usize>
    decreases edges.len(),
{
    if edges.len() == 0 {
        seq![]
    } else {
        let rest = edge_sources(edges.drop_last(), index);
        if edges.last().1 == index {
            rest.push(edges.last().0)
        } else {
            rest
        }
    }
}

/// `s` with each entry dropped that repeats the one before it.
pub open spec fn dedup_indices(s: Seq<usize>) -> Seq<usize>
    decreases s.len(),
{
    if s.len() <= 1 {
        s
    } else {
        let d = dedup_indices(s.drop_last());
        if s[s.len() - 2] == s.last() {
            d
        } else {
            d.push(s.last())
        }
    }
}

/// Every entry with an edge into `index`, sorted and with repeats dropped.
pub open spec fn parents_of(tree: &Tree, index: usize) -> Seq<usize> {
    dedup_indices(sorted_indices(tree.packages@, edge_sources(tree.edges@, index)))
}

proof fn lemma_dedup_last(s: Seq<usize>)
    requires
        s.len() > 0,
    ensures
        dedup_indices(s).len() > 0,
        dedup_indices(s).last() == s.last(),
        forall|i: int| 0 <= i < dedup_indices(s).len() ==> s.contains(#[trigger] dedup_indices(s)[i]),
    decreases s.len(),
{
    if s.len() > 1 {
        lemma_dedup_last(s.drop_last());
        let d = dedup_indices(s.drop_last());
        assert forall|i: int| 0 <= i < dedup_indices(s).len() implies s.contains(
            #[trigger] dedup_indices(s)[i],
        ) by {
            if i < d.len() {
                assert(s.drop_last().contains(d[i]));
                let j = choose|j: int| 0 <= j < s.drop_last().len() && s.drop_last()[j] == d[i];
                assert(s[j] == d[i]);
            } else {
                assert(s[s.len() - 1] == s.last());
            }
        }
    }
}

impl<'a> Hit<'a> {
    pub fn pkg(&self) -> (p: &'a Package)
        requires
            self.index < self.tree.packages@.len(),
        ensures
            *p == self.tree.packages@[self.index as int],
    {
        &self.tree.packages[self.index]
    }

    /// Every package with an edge into this one, deduplicated and ordered.
    /// Its length is the in-degree the slopsquat rule reads.
    pub fn parents(&self) -> (out: Vec<usize>)
        requires
            self.tree.edges_in_range(),
        ensures
            out@ == parents_of(self.tree, self.index),
            forall|i: int| 0 <= i < out@.len() ==> #[trigger] out@[i] < self.tree.packages@.len(),
    {
        let tree = self.tree;
        let mut from: Vec<usize> = Vec::new();
        for e in 0..tree.edges.len()
            invariant
                tree.edges_in_range(),
                from@ == edge_sources(tree.edges@.take(e as int), self.index),
                forall|i: int| 0 <= i < from@.len() ==> #[trigger] from@[i] < tree.packages@.len(),
        {
            proof {
                assert(tree.edges@.take(e + 1).drop_last() =~= tree.edges@.take(e as int));
                assert(tree.edges@.take(e + 1).last() == tree.edges@[e as int]);
                assert(tree.edges@[e as int].0 < tree.packages@.len());
            }
            if tree.edges[e].1 == self.index {
                from.push(tree.edges[e].0);
            }
        }
        proof {
            assert(tree.edges@.take(tree.edges@.len() as int) =~= tree.edges@);
        }
        let sorted = sort_indices(&tree.packages, &from);
        let mut out: Vec<usize> = Vec::new();
        for k in 0..sorted.len()
            invariant
                forall|i: int| 0 <= i < sorted@.len() ==> #[trigger] sorted@[i] < tree.packages@.len(),
                out@ == dedup_indices(sorted@.take(k as int)),
                k > 0 ==> out@.len() > 0 && out@.last() == sorted@[k - 1],
                forall|i: int| 0 <= i < out@.len() ==> #[trigger] out@[i] < tree.packages@.len(),
        {
            proof {
                let t = sorted@.take(k + 1);
                assert(t.drop_last() =~= sorted@.take(k as int));
                assert(t.last() == sorted@[k as int]);
                if k > 0 {
                    assert(t[t.len() - 2] == sorted@[k - 1]);
                }
            }
            if k == 0 || out[out.len() - 1] != sorted[k] {
                out.push(sorted[k]);
            }
            proof {
                lemma_dedup_last(sorted@.take(k + 1));
            }
        }
        proof {
            assert(sorted@.take(sorted@.len() as int) =~= sorted@);
        }
        out
    }
}

/// A name that is in the trees when the one you asked for is not.
pub struct Near {
    pub name: String,
    pub source: String,
    pub distance: usize,
}

/// Why the walk stopped at a node instead of expanding it.
#[derive(Debug, Clone, Copy, PartialEq, Eq, Structural)]
pub enum Stop {
    /// This name is already open on the path above it.
    Cycle,
    /// Its dependencies were printed in full somewhere earlier.
    Repeat,
    /// `--depth`, carrying the number of direct dependencies not shown.
    Depth(usize),
}

pub open spec fn stop_id(s: Stop) -> Seq<char> {
    match s {
        Stop::Cycle => "cycle"@,
        Stop::Repeat => "repeat"@,
        Stop::Depth(_) => "depth"@,
    }
}

impl Stop {
    pub fn id(self) -> (s: &'static str)
        ensures
            s@ == stop_id(self),
    {
        match self {
            Stop::Cycle => "cycle",
            Stop::Repeat => "repeat",
            Stop::Depth(_) => "depth",
        }
    }
}

/// One node of the out-edge walk.
pub struct Node {
    pub index: usize,
    pub stop: Option<Stop>,
    pub deps: Vec<Node>,
}

/// A node of the walk as plain values.
pub struct NodeView {
    pub index: usize,
    pub stop: Option<Stop>,
    pub deps: Seq<NodeView>,
}

pub open spec fn node_view(n: Node) -> NodeView
    decreases n,
{
    NodeView { index: n.index, stop: n.stop, deps: nodes_view(n.deps@) }
}

pub open spec fn nodes_view(s: Seq<Node>) -> Seq<NodeView>
    decreases s,
{
    Seq::new(
        s.len(),
        |i: int|
            if 0 <= i < s.len() {
                node_view(s[i])
            } else {
                NodeView { index: 0, stop: None, deps: seq![] }
            },
    )
}

/// The entries `from` has an edge to, one per edge, in edge order.
pub open spec fn edge_targets(edges: Seq<(usize, usize)>, from: usize) -> Seq<usize>
    decreases edges.len(),
{
    if edges.len() == 0 {
        seq![]
    } else {
        let rest = edge_targets(edges.drop_last(), from);
        if edges.last().0 == from {
            rest.push(edges.last().1)
        } else {
            rest
        }
    }
}

/// The out-edges of every entry, each list sorted.
pub open spec fn kids_of(tree: &Tree) -> Seq<Seq<usize>> {
    Seq::new(
        tree.packages@.len(),
        |i: int| sorted_indices(tree.packages@, edge_targets(tree.edges@, i as usize)),
    )
}

struct Graph {
    kids: Vec<Vec<usize>>,
    limit: usize,
}

spec fn graph_view(g: &Graph) -> Seq<Seq<usize>> {
    g.kids@.map_values(|k: Vec<usize>| k@)
}

/// Every list has an entry per node and names only nodes.
pub open spec fn graph_ok(kids: Seq<Seq<usize>>) -> bool {
    forall|i: int, j: int| 0 <= i < kids.len() && 0 <= j < kids[i].len() ==> #[trigger] kids[i][j] < kids.len()
}

impl Graph {
    fn new(tree: &Tree, limit: usize) -> (g: Graph)
        requires
            tree.edges_in_range(),
        ensures
            graph_view(&g) == kids_of(tree),
            g.kids@.len() == tree.packages@.len(),
            g.limit == limit,
            graph_ok(graph_view(&g)),
    {
        let n = tree.packages.len();
        let mut kids: Vec<Vec<usize>> = Vec::new();
        for i in 0..n
            invariant
                n == tree.packages@.len(),
                tree.edges_in_range(),
                kids@.len() == i,
                forall|x: int| 0 <= x < i ==> (#[trigger] kids@[x])@ == sorted_indices(
                    tree.packages@,
                    edge_targets(tree.edges@, x as usize),
                ),
                forall|x: int, j: int| 0 <= x < i && 0 <= j < kids@[x]@.len() ==> #[trigger] kids@[x]@[j] < n,
        {
            let mut row: Vec<usize> = Vec::new();
            for e in 0..tree.edges.len()
                invariant
                    tree.edges_in_range(),
                    n == tree.packages@.len(),
                    row@ == edge_targets(tree.edges@.take(e as int), i),
                    forall|j: int| 0 <= j < row@.len() ==> #[trigger] row@[j] < n,
            {
                proof {
                    assert(tree.edges@.take(e + 1).drop_last() =~= tree.edges@.take(e as int));
                    assert(tree.edges@.take(e + 1).last() == tree.edges@[e as int]);
                    assert(tree.edges@[e as int].1 < n);
                }
                if tree.edges[e].0 == i {
                    row.push(tree.edges[e].1);
                }
            }
            proof {
                assert(tree.edges@.take(tree.edges@.len() as int) =~= tree.edges@);
            }
            let sorted = sort_indices(&tree.packages, &row);
            kids.push(sorted);
        }
        let g = Graph { kids, limit };
        proof {
            assert(graph_view(&g) =~= kids_of(tree));
        }
        g
    }
}

/// Why a kid stops the walk, given what has been expanded and the path
/// above it. The depth cut comes before `seen`, so a node first met at the
/// cut is not recorded as printed.
pub open spec fn stop_at(
    kids: Seq<Seq<usize>>,
    limit: nat,
    seen: Seq<bool>,
    path: Seq<usize>,
    kid: usize,
) -> Option<Stop> {
    if path.contains(kid) {
        Some(Stop::Cycle)
    } else if limit != 0 && path.len() >= limit {
        if kids[kid as int].len() > 0 {
            Some(Stop::Depth(kids[kid as int].len() as usize))
        } else {
            None
        }
    } else if seen[kid as int] {
        Some(Stop::Repeat)
    } else {
        None
    }
}

/// `seen` after `kid` is checked: recorded only when it is about to be
/// expanded for the first time.
pub open spec fn mark(limit: nat, seen: Seq<bool>, path: Seq<usize>, kid: usize) -> Seq<bool> {
    if path.contains(kid) || (limit != 0 && path.len() >= limit) {
        seen
    } else {
        seen.update(kid as int, true)
    }
}

/// The walk below `node`: its kids in order, each expanded at most once.
pub open spec fn expand_spec(
    kids: Seq<Seq<usize>>,
    limit: nat,
    seen: Seq<bool>,
    path: Seq<usize>,
    node: usize,
    fuel: nat,
) -> (Seq<NodeView>, Seq<bool>)
    decreases fuel, 1nat, 0int,
{
    kids_spec(kids, limit, seen, path, kids[node as int], 0, fuel)
}

/// The walk over `row` from its `k`th entry on.
pub open spec fn kids_spec(
    kids: Seq<Seq<usize>>,
    limit: nat,
    seen: Seq<bool>,
    path: Seq<usize>,
    row: Seq<usize>,
    k: int,
    fuel: nat,
) -> (Seq<NodeView>, Seq<bool>)
    decreases fuel, 0nat, row.len() - k,
{
    if k < 0 || k >= row.len() {
        (seq![], seen)
    } else {
        let kid = row[k];
        let stop = stop_at(kids, limit, seen, path, kid);
        let s1 = mark(limit, seen, path, kid);
        let (node, s2) = if stop is Some || fuel == 0 {
            (NodeView { index: kid, stop, deps: seq![] }, s1)
        } else {
            let (deps, s) = expand_spec(kids, limit, s1, path.push(kid), kid, (fuel - 1) as nat);
            (NodeView { index: kid, stop: None, deps }, s)
        };
        let (rest, s3) = kids_spec(kids, limit, s2, path, row, k + 1, fuel);
        (seq![node] + rest, s3)
    }
}

/// A path of distinct nodes below `n` is no longer than `n`.
proof fn lemma_path_bound(s: Seq<usize>, n: nat)
    requires
        forall|i: int| 0 <= i < s.len() ==> #[trigger] s[i] < n,
        forall|i: int, j: int| 0 <= i < j < s.len() ==> #[trigger] s[i] != #[trigger] s[j],
    ensures
        s.len() <= n,
    decreases n,
{
    if n == 0 {
        if s.len() > 0 {
            assert(s[0] < 0);
        }
    } else if s.contains((n - 1) as usize) {
        let p = choose|p: int| 0 <= p < s.len() && s[p] == (n - 1) as usize;
        let t = s.remove(p);
        assert forall|i: int| 0 <= i < t.len() implies #[trigger] t[i] < (n - 1) as nat by {
            if i < p {
                assert(t[i] == s[i]);
                assert(s[i] != s[p]);
            } else {
                assert(t[i] == s[i + 1]);
                assert(s[i + 1] != s[p]);
            }
        }
        assert forall|i: int, j: int| 0 <= i < j < t.len() implies #[trigger] t[i] != #[trigger] t[j] by {
            let a = if i < p { i } else { i + 1 };
            let b = if j < p { j } else { j + 1 };
            assert(t[i] == s[a] && t[j] == s[b]);
        }
        lemma_path_bound(t, (n - 1) as nat);
    } else {
        assert forall|i: int| 0 <= i < s.len() implies #[trigger] s[i] < (n - 1) as nat by {
            if s[i] == n - 1 {
                assert(s.contains(s[i]));
            }
        }
        lemma_path_bound(s, (n - 1) as nat);
    }
}

/// The walk below `node`, expanding each node at most once.
fn expand(g: &Graph, seen: &mut Vec<bool>, path: &mut Vec<usize>, node: usize) -> (out: Vec<Node>)
    requires
        graph_ok(graph_view(g)),
        node < g.kids@.len(),
        old(seen)@.len() == g.kids@.len(),
        forall|i: int| 0 <= i < old(path)@.len() ==> #[trigger] old(path)@[i] < g.kids@.len(),
        forall|i: int, j: int| 0 <= i < j < old(path)@.len() ==> #[trigger] old(path)@[i] != #[trigger] old(path)@[j],
        old(path)@.contains(node),
    ensures
        final(path)@ == old(path)@,
        final(seen)@.len() == old(seen)@.len(),
        (nodes_view(out@), final(seen)@) == expand_spec(
            graph_view(g),
            g.limit as nat,
            old(seen)@,
            old(path)@,
            node,
            (g.kids@.len() - old(path)@.len()) as nat,
        ),
    decreases g.kids@.len() - old(path)@.len(),
{
    let ghost kv = graph_view(g);
    let ghost n = g.kids@.len();
    let ghost path0 = path@;
    let ghost seen0 = seen@;
    let ghost fuel = (n - path0.len()) as nat;
    proof {
        lemma_path_bound(path0, n as nat);
        assert(kv[node as int] == g.kids@[node as int]@);
    }
    let row = &g.kids[node];
    let ghost rv = row@;
    let mut out: Vec<Node> = Vec::new();
    for k in 0..row.len()
        invariant
            kv == graph_view(g),
            graph_ok(kv),
            n == g.kids@.len(),
            rv == row@,
            rv == kv[node as int],
            path@ == path0,
            path0 == old(path)@,
            path0.len() <= n,
            fuel == (n - path0.len()) as nat,
            forall|i: int| 0 <= i < path0.len() ==> #[trigger] path0[i] < n,
            forall|i: int, j: int| 0 <= i < j < path0.len() ==> #[trigger] path0[i] != #[trigger] path0[j],
            path0.contains(node),
            seen@.len() == n,
            node < n,
            expand_spec(kv, g.limit as nat, seen0, path0, node, fuel) == (
                nodes_view(out@) + kids_spec(kv, g.limit as nat, seen@, path0, rv, k as int, fuel).0,
                kids_spec(kv, g.limit as nat, seen@, path0, rv, k as int, fuel).1,
            ),
    {
        let kid = row[k];
        proof {
            assert(kid < n);
        }
        let below = g.kids[kid].len();
        proof {
            assert(kv[kid as int] == g.kids@[kid as int]@);
        }
        let mut on_path = false;
        for x in 0..path.len()
            invariant
                on_path == exists|y: int| 0 <= y < x && path@[y] == kid,
        {
            if path[x] == kid {
                on_path = true;
            }
        }
        let ghost s_before = seen@;
        let stop = if on_path {
            Some(Stop::Cycle)
        } else if g.limit != 0 && path.len() >= g.limit {
            if below > 0 {
                Some(Stop::Depth(below))
            } else {
                None
            }
        } else if seen[kid] {
            Some(Stop::Repeat)
        } else {
            seen.set(kid, true);
            None
        };
        proof {
            assert(on_path == path0.contains(kid));
            assert(stop == stop_at(kv, g.limit as nat, s_before, path0, kid));
            assert(seen@ == mark(g.limit as nat, s_before, path0, kid));
        }
        let deps = match stop {
            Some(_) => Vec::new(),
            None => {
                proof {
                    assert(!path0.contains(kid));
                    assert forall|i: int, j: int| 0 <= i < j < path0.push(kid).len() implies #[trigger] path0.push(kid)[i] != #[trigger] path0.push(kid)[j] by {
                        if j == path0.len() {
                            assert(path0.contains(path0[i]));
                        }
                    }
                    lemma_path_bound(path0.push(kid), n as nat);
                }
                path.push(kid);
                proof {
                    assert(path@ == path0.push(kid));
                    assert(path@[path0.len() as int] == kid);
                    assert(path@.len() == path0.len() + 1);
                }
                let ghost s_mid = seen@;
                let d = expand(g, seen, path, kid);
                path.pop();
                proof {
                    assert(path@ =~= path0);
                    assert((nodes_view(d@), seen@) == expand_spec(
                        kv,
                        g.limit as nat,
                        s_mid,
                        path0.push(kid),
                        kid,
                        (fuel - 1) as nat,
                    ));
                }
                d
            },
        };
        let ghost dv = nodes_view(deps@);
        let nd = Node { index: kid, stop, deps };
        let ghost old_out = out@;
        out.push(nd);
        proof {
            assert(nodes_view(out@) =~= nodes_view(old_out).push(node_view(nd)));
            assert(node_view(nd) == NodeView { index: kid, stop, deps: dv });
            let s1 = mark(g.limit as nat, s_before, path0, kid);
            if stop is Some {
                assert(dv =~= seq![]);
            }
            assert(rv[k as int] == kid);
            assert(kids_spec(kv, g.limit as nat, s_before, path0, rv, k as int, fuel) == (seq![
                NodeView { index: kid, stop, deps: dv },
            ] + kids_spec(kv, g.limit as nat, seen@, path0, rv, k + 1, fuel).0,
                kids_spec(kv, g.limit as nat, seen@, path0, rv, k + 1, fuel).1));
            assert(kids_spec(kv, g.limit as nat, s_before, path0, rv, k as int, fuel).0 == seq![
                node_view(nd),
            ] + kids_spec(kv, g.limit as nat, seen@, path0, rv, k + 1, fuel).0);
            assert((nodes_view(old_out) + (seq![node_view(nd)] + kids_spec(
                kv,
                g.limit as nat,
                seen@,
                path0,
                rv,
                k + 1,
                fuel,
            ).0)) =~= nodes_view(out@) + kids_spec(kv, g.limit as nat, seen@, path0, rv, k + 1, fuel).0);
        }
    }
    proof {
        assert(nodes_view(out@) + kids_spec(kv, g.limit as nat, seen@, path0, rv, rv.len() as int, fuel).0
            =~= nodes_view(out@));
    }
    out
}

/// `n` flags, set only at `root`.
pub open spec fn only(n: nat, root: usize) -> Seq<bool> {
    Seq::new(n, |i: int| i == root)
}

/// The walk from `root`: only `root` counts as expanded and open at the
/// start, and a path can hold each entry once.
pub open spec fn walk_spec(tree: Tree, root: usize, limit: nat) -> Seq<NodeView> {
    expand_spec(
        kids_of(&tree),
        limit,
        only(tree.packages@.len(), root),
        seq![root],
        root,
        (tree.packages@.len() - 1) as nat,
    ).0
}

/// Every node names an entry below `n`.
pub open spec fn node_in(v: NodeView, n: nat) -> bool
    decreases v, 0int,
{
    v.index < n && nodes_in(v.deps, n, 0)
}

/// Every node of `s` from the `k`th on names an entry below `n`.
pub open spec fn nodes_in(s: Seq<NodeView>, n: nat, k: int) -> bool
    decreases s, s.len() - k,
{
    if k < 0 || k >= s.len() {
        true
    } else {
        node_in(s[k], n) && nodes_in(s, n, k + 1)
    }
}

proof fn lemma_nodes_in_index(s: Seq<NodeView>, n: nat, k: int, i: int)
    requires
        0 <= k <= i < s.len(),
        nodes_in(s, n, k),
    ensures
        node_in(s[i], n),
    decreases i - k,
{
    if k < i {
        lemma_nodes_in_index(s, n, k + 1, i);
    }
}

proof fn lemma_expand_in(
    kids: Seq<Seq<usize>>,
    limit: nat,
    seen: Seq<bool>,
    path: Seq<usize>,
    node: usize,
    fuel: nat,
)
    requires
        graph_ok(kids),
        node < kids.len(),
    ensures
        nodes_in(expand_spec(kids, limit, seen, path, node, fuel).0, kids.len(), 0),
    decreases fuel, 1nat, 0int,
{
    lemma_kids_in(kids, limit, seen, path, kids[node as int], 0, fuel);
}

proof fn lemma_kids_in(
    kids: Seq<Seq<usize>>,
    limit: nat,
    seen: Seq<bool>,
    path: Seq<usize>,
    row: Seq<usize>,
    k: int,
    fuel: nat,
)
    requires
        graph_ok(kids),
        forall|i: int| 0 <= i < row.len() ==> #[trigger] row[i] < kids.len(),
    ensures
        nodes_in(kids_spec(kids, limit, seen, path, row, k, fuel).0, kids.len(), 0),
    decreases fuel, 0nat, row.len() - k,
{
    let out = kids_spec(kids, limit, seen, path, row, k, fuel);
    if 0 <= k < row.len() {
        let kid = row[k];
        let stop = stop_at(kids, limit, seen, path, kid);
        let s1 = mark(limit, seen, path, kid);
        let (node, s2) = if stop is Some || fuel == 0 {
            (NodeView { index: kid, stop, deps: seq![] }, s1)
        } else {
            let (deps, s) = expand_spec(kids, limit, s1, path.push(kid), kid, (fuel - 1) as nat);
            (NodeView { index: kid, stop: None, deps }, s)
        };
        if !(stop is Some || fuel == 0) {
            lemma_expand_in(kids, limit, s1, path.push(kid), kid, (fuel - 1) as nat);
        }
        assert(node_in(node, kids.len())) by {
            reveal_with_fuel(nodes_in, 2);
        }
        let rest = kids_spec(kids, limit, s2, path, row, k + 1, fuel).0;
        lemma_kids_in(kids, limit, s2, path, row, k + 1, fuel);
        assert(out.0 == seq![node] + rest);
        lemma_nodes_in_cons(node, rest, kids.len());
    }
}

proof fn lemma_nodes_in_cons(v: NodeView, rest: Seq<NodeView>, n: nat)
    requires
        node_in(v, n),
        nodes_in(rest, n, 0),
    ensures
        nodes_in(seq![v] + rest, n, 0),
{
    let s = seq![v] + rest;
    lemma_nodes_in_shift(s, rest, n, 0);
}

proof fn lemma_nodes_in_shift(s: Seq<NodeView>, rest: Seq<NodeView>, n: nat, k: int)
    requires
        s.len() == rest.len() + 1,
        forall|i: int| 0 <= i < rest.len() ==> s[i + 1] == rest[i],
        node_in(s[0], n),
        nodes_in(rest, n, 0),
        0 <= k <= rest.len(),
        forall|i: int| 0 <= i < k ==> node_in(#[trigger] rest[i], n),
    ensures
        nodes_in(s, n, 0),
    decreases rest.len() - k,
{
    if k < rest.len() {
        lemma_nodes_in_index(rest, n, 0, k);
        lemma_nodes_in_shift(s, rest, n, k + 1);
    } else {
        assert forall|i: int| 0 <= i < s.len() implies node_in(#[trigger] s[i], n) by {
            if i > 0 {
                assert(s[i] == rest[i - 1]);
            }
        }
        lemma_nodes_in_all_from(s, n, 0);
    }
}

proof fn lemma_nodes_in_all_from(s: Seq<NodeView>, n: nat, k: int)
    requires
        0 <= k <= s.len(),
        forall|i: int| 0 <= i < s.len() ==> node_in(#[trigger] s[i], n),
    ensures
        nodes_in(s, n, k),
    decreases s.len() - k,
{
    if k < s.len() {
        lemma_nodes_in_all_from(s, n, k + 1);
    }
}

/// The walk from `root`, and how many direct dependencies it has.
fn walk(tree: &Tree, root: usize, limit: usize) -> (r: (Vec<Node>, usize))
    requires
        tree.edges_in_range(),
        root < tree.packages@.len(),
    ensures
        nodes_view(r.0@) == walk_spec(*tree, root, limit as nat),
        nodes_in(nodes_view(r.0@), tree.packages@.len(), 0),
        r.1 == kids_of(tree)[root as int].len(),
{
    let g = Graph::new(tree, limit);
    let direct = g.kids[root].len();
    proof {
        assert(graph_view(&g)[root as int] == g.kids@[root as int]@);
    }
    let mut seen: Vec<bool> = Vec::new();
    for i in 0..tree.packages.len()
        invariant
            seen@ == Seq::new(i as nat, |x: int| x == root),
    {
        seen.push(i == root);
        proof {
            assert(seen@ =~= Seq::new((i + 1) as nat, |x: int| x == root));
        }
    }
    proof {
        assert(seen@ =~= only(tree.packages@.len(), root));
    }
    let mut path: Vec<usize> = Vec::new();
    path.push(root);
    proof {
        assert(path@ =~= seq![root]);
        assert(path@.contains(root)) by {
            assert(path@[0] == root);
        }
    }
    let ghost seen0 = seen@;
    let ghost path0 = path@;
    let nodes = expand(&g, &mut seen, &mut path, root);
    proof {
        assert(g.kids@.len() == tree.packages@.len());
        assert(seen0 == only(tree.packages@.len(), root));
        assert(path0 == seq![root]);
        assert(graph_view(&g) == kids_of(tree));
        assert(nodes_view(nodes@) == expand_spec(
            kids_of(tree),
            limit as nat,
            seen0,
            path0,
            root,
            (tree.packages@.len() - 1) as nat,
        ).0);
        lemma_expand_in(
            kids_of(tree),
            limit as nat,
            seen0,
            path0,
            root,
            (tree.packages@.len() - 1) as nat,
        );
    }
    (nodes, direct)
}

/// The entries of `pkgs` below `n` whose name normalises to `want`, in index
/// order.
pub open spec fn name_matches(eco: lock::Ecosystem, pkgs: Seq<Package>, want: Seq<char>, n: int) -> Seq<usize>
    decreases n,
{
    if n <= 0 {
        seq![]
    } else {
        let rest = name_matches(eco, pkgs, want, n - 1);
        if corpus::normalized(eco, pkgs[n - 1].name@) == want {
            rest.push((n - 1) as usize)
        } else {
            rest
        }
    }
}

/// The hits in one tree: every entry whose name is the query's, sorted.
pub open spec fn tree_hits(tree: Tree, query: Seq<char>) -> Seq<(Tree, usize)> {
    let eco = tree.ecosystem;
    let found = name_matches(
        eco,
        tree.packages@,
        corpus::normalized(eco, query),
        tree.packages@.len() as int,
    );
    pairs_in(tree, sorted_indices(tree.packages@, found))
}

/// Each entry of `s` paired with the tree it indexes.
pub open spec fn pairs_in(tree: Tree, s: Seq<usize>) -> Seq<(Tree, usize)> {
    s.map_values(|i: usize| (tree, i))
}

/// Every entry in every tree whose name is `query`, tree by tree.
pub open spec fn resolve_spec(trees: Seq<Tree>, query: Seq<char>) -> Seq<(Tree, usize)>
    decreases trees.len(),
{
    if trees.len() == 0 {
        seq![]
    } else {
        resolve_spec(trees.drop_last(), query) + tree_hits(trees.last(), query)
    }
}

/// Each hit as the tree it is in and its entry.
pub open spec fn hit_pairs<'a>(hits: Seq<Hit<'a>>) -> Seq<(Tree, usize)> {
    hits.map_values(|h: Hit<'a>| (*h.tree, h.index))
}

/// Every entry in every tree whose name is `query`.
///
/// Not the first match and not the newest: one name at three versions is
/// three hits. Matching is on the ecosystem's normalised form, the same one
/// the corpus lookup uses.
pub fn resolve<'a>(trees: &'a [Tree], query: &str) -> (hits: Vec<Hit<'a>>)
    ensures
        hit_pairs(hits@) == resolve_spec(trees@, query@),
        forall|i: int|
            0 <= i < hits@.len() ==> trees@.contains(*(#[trigger] hits@[i]).tree) && hits@[i].index
                < hits@[i].tree.packages@.len(),
{
    let mut hits: Vec<Hit<'a>> = Vec::new();
    for t in 0..trees.len()
        invariant
            hit_pairs(hits@) == resolve_spec(trees@.take(t as int), query@),
            forall|i: int|
                0 <= i < hits@.len() ==> trees@.contains(*(#[trigger] hits@[i]).tree) && hits@[i].index
                    < hits@[i].tree.packages@.len(),
    {
        let tree = &trees[t];
        let eco = tree.ecosystem;
        let want = corpus::normalize(eco, query);
        let mut found: Vec<usize> = Vec::new();
        for i in 0..tree.packages.len()
            invariant
                want@ == corpus::normalized(eco, query@),
                eco == tree.ecosystem,
                found@ == name_matches(eco, tree.packages@, want@, i as int),
                forall|j: int| 0 <= j < found@.len() ==> #[trigger] found@[j] < tree.packages@.len(),
        {
            let name = corpus::normalize(eco, tree.packages[i].name.as_str());
            if text::same(name.as_str(), want.as_str()) {
                found.push(i);
            }
        }
        let sorted = sort_indices(&tree.packages, &found);
        let ghost before = hits@;
        for k in 0..sorted.len()
            invariant
                hit_pairs(hits@) == hit_pairs(before) + pairs_in(*tree, sorted@.take(k as int)),
                t < trees@.len(),
                *tree == trees@[t as int],
                forall|i: int| 0 <= i < sorted@.len() ==> #[trigger] sorted@[i] < tree.packages@.len(),
                forall|i: int|
                    0 <= i < hits@.len() ==> trees@.contains(*(#[trigger] hits@[i]).tree)
                        && hits@[i].index < hits@[i].tree.packages@.len(),
        {
            let ghost old_hits = hits@;
            hits.push(Hit { tree, index: sorted[k] });
            proof {
                assert(trees@.contains(*tree)) by {
                    assert(trees@[t as int] == *tree);
                }
                assert forall|i: int| 0 <= i < hits@.len() implies trees@.contains(
                    *(#[trigger] hits@[i]).tree,
                ) && hits@[i].index < hits@[i].tree.packages@.len() by {
                    if i < old_hits.len() {
                        assert(hits@[i] == old_hits[i]);
                    }
                }
                assert(sorted@.take(k + 1) =~= sorted@.take(k as int).push(sorted@[k as int]));
                assert(hit_pairs(hits@) =~= hit_pairs(old_hits).push((*tree, sorted@[k as int])));
                assert(pairs_in(*tree, sorted@.take(k + 1)) =~= pairs_in(*tree, sorted@.take(k as int)).push(
                    (*tree, sorted@[k as int]),
                ));
                assert(hit_pairs(hits@) =~= hit_pairs(before) + pairs_in(*tree, sorted@.take(k + 1)));
            }
        }
        proof {
            assert(sorted@.take(sorted@.len() as int) =~= sorted@);
            assert(trees@.take(t + 1).drop_last() =~= trees@.take(t as int));
            assert(trees@.take(t + 1).last() == *tree);
        }
    }
    proof {
        assert(trees@.take(trees@.len() as int) =~= trees@);
    }
    hits
}

/// A near name as plain values: its distance, its name, and its file.
pub open spec fn near_view(n: Near) -> (usize, Seq<char>, Seq<char>) {
    (n.distance, n.name@, n.source@)
}

pub open spec fn near_views(s: Seq<Near>) -> Seq<(usize, Seq<char>, Seq<char>)> {
    s.map_values(|n: Near| near_view(n))
}

/// Distance first, then name, then file, each in `str` order.
pub open spec fn triple_lt(a: (usize, Seq<char>, Seq<char>), b: (usize, Seq<char>, Seq<char>)) -> bool {
    a.0 < b.0 || (a.0 == b.0 && (text::seq_lt(a.1, b.1) || (a.1 == b.1 && text::seq_lt(a.2, b.2))))
}

pub open spec fn triples_sorted(s: Seq<(usize, Seq<char>, Seq<char>)>) -> bool {
    forall|i: int, j: int| 0 <= i < j < s.len() ==> triple_lt(#[trigger] s[i], #[trigger] s[j])
}

/// What entry `p` of tree `t` contributes to the near list, if anything.
pub open spec fn near_at(trees: Seq<Tree>, query: Seq<char>, t: int, p: int) -> Option<
    (usize, Seq<char>, Seq<char>),
> {
    let tree = trees[t];
    let eco = tree.ecosystem;
    let name = tree.packages@[p].name@;
    let d = distance::distance(corpus::normalized(eco, query), corpus::normalized(eco, name));
    if d <= MAX_EDIT_DISTANCE {
        Some((d as usize, name, tree.source@))
    } else {
        None
    }
}

/// `x` comes from an entry before entry `p0` of tree `t0`.
pub open spec fn near_before(
    trees: Seq<Tree>,
    query: Seq<char>,
    x: (usize, Seq<char>, Seq<char>),
    t0: int,
    p0: int,
) -> bool {
    exists|t: int, p: int|
        0 <= t < trees.len() && 0 <= p < trees[t].packages@.len() && (t < t0 || (t == t0 && p < p0))
            && #[trigger] near_at(trees, query, t, p) == Some(x)
}

/// `x` comes from some entry of some tree.
pub open spec fn is_near(trees: Seq<Tree>, query: Seq<char>, x: (usize, Seq<char>, Seq<char>)) -> bool {
    near_before(trees, query, x, trees.len() as int, 0)
}

proof fn lemma_triple_order(a: (usize, Seq<char>, Seq<char>), b: (usize, Seq<char>, Seq<char>), c: (
    usize,
    Seq<char>,
    Seq<char>,
))
    ensures
        !triple_lt(a, a),
        triple_lt(a, b) ==> !triple_lt(b, a),
        triple_lt(a, b) && triple_lt(b, c) ==> triple_lt(a, c),
        a == b || triple_lt(a, b) || triple_lt(b, a),
{
    text::lemma_lt_irreflexive(a.1);
    text::lemma_lt_irreflexive(a.2);
    text::lemma_lt_asymmetric(a.1, b.1);
    text::lemma_lt_asymmetric(a.2, b.2);
    text::lemma_lt_total(a.1, b.1);
    text::lemma_lt_total(a.2, b.2);
    if triple_lt(a, b) && triple_lt(b, c) {
        if a.0 == b.0 && b.0 == c.0 {
            if text::seq_lt(a.1, b.1) && text::seq_lt(b.1, c.1) {
                text::lemma_lt_transitive(a.1, b.1, c.1);
            }
            if a.1 == b.1 && b.1 == c.1 {
                text::lemma_lt_transitive(a.2, b.2, c.2);
            }
        }
    }
}

pub open spec fn triple_view(x: (usize, String, String)) -> (usize, Seq<char>, Seq<char>) {
    (x.0, x.1@, x.2@)
}

pub open spec fn triple_views(s: Seq<(usize, String, String)>) -> Seq<(usize, Seq<char>, Seq<char>)> {
    s.map_values(|x: (usize, String, String)| triple_view(x))
}

fn triple_less(a: &(usize, String, String), b: &(usize, String, String)) -> (r: bool)
    ensures
        r == triple_lt(triple_view(*a), triple_view(*b)),
{
    if a.0 != b.0 {
        a.0 < b.0
    } else if text::less_str(a.1.as_str(), b.1.as_str()) {
        true
    } else if !text::same(a.1.as_str(), b.1.as_str()) {
        false
    } else {
        text::less_str(a.2.as_str(), b.2.as_str())
    }
}

fn triple_same(a: &(usize, String, String), b: &(usize, String, String)) -> (r: bool)
    ensures
        r == (triple_view(*a) == triple_view(*b)),
{
    a.0 == b.0 && text::same(a.1.as_str(), b.1.as_str()) && text::same(a.2.as_str(), b.2.as_str())
}

/// `x` added to a strictly sorted list, which stays strictly sorted and
/// holds it once.
fn insert_triple(list: &mut Vec<(usize, String, String)>, x: (usize, String, String))
    requires
        triples_sorted(triple_views(old(list)@)),
    ensures
        triples_sorted(triple_views(final(list)@)),
        forall|y: (usize, Seq<char>, Seq<char>)|
            triple_views(final(list)@).contains(y) <==> (triple_views(old(list)@).contains(y) || y
                == triple_view(x)),
{
    let ghost v = triple_views(list@);
    let ghost xv = triple_view(x);
    let mut p: usize = 0;
    while p < list.len() && triple_less(&list[p], &x)
        invariant
            p <= list@.len(),
            v == triple_views(list@),
            xv == triple_view(x),
            forall|j: int| 0 <= j < p ==> triple_lt(#[trigger] v[j], xv),
        decreases list@.len() - p,
    {
        p = p + 1;
    }
    if p < list.len() && triple_same(&list[p], &x) {
        proof {
            assert forall|y: (usize, Seq<char>, Seq<char>)| v.contains(y) <==> (v.contains(y) || y == xv) by {
                if y == xv {
                    assert(v[p as int] == xv);
                }
            }
        }
        return;
    }
    proof {
        if p < v.len() {
            lemma_triple_order(v[p as int], xv, xv);
        }
    }
    list.insert(p, x);
    proof {
        let w = triple_views(list@);
        assert(w =~= v.insert(p as int, xv));
        assert forall|i: int, j: int| 0 <= i < j < w.len() implies triple_lt(#[trigger] w[i], #[trigger] w[j]) by {
            if j < p {
                assert(w[i] == v[i] && w[j] == v[j]);
            } else if j == p {
                assert(w[i] == v[i]);
            } else if i > p {
                assert(w[i] == v[i - 1] && w[j] == v[j - 1]);
            } else if i == p {
                assert(w[j] == v[j - 1]);
                if j - 1 > p {
                    lemma_triple_order(xv, v[p as int], v[j - 1]);
                }
            } else {
                assert(w[i] == v[i] && w[j] == v[j - 1]);
            }
        }
        assert forall|y: (usize, Seq<char>, Seq<char>)| w.contains(y) <==> (v.contains(y) || y == xv) by {
            if w.contains(y) {
                let k = choose|k: int| 0 <= k < w.len() && w[k] == y;
                if k < p {
                    assert(v[k] == y);
                } else if k > p {
                    assert(v[k - 1] == y);
                }
            }
            if v.contains(y) {
                let k = choose|k: int| 0 <= k < v.len() && v[k] == y;
                if k < p {
                    assert(w[k] == y);
                } else {
                    assert(w[k + 1] == y);
                }
            }
            if y == xv {
                assert(w[p as int] == y);
            }
        }
    }
}

/// `o` is the first `MAX_NEAR` near names, in order, each once: every one is
/// near, and any near name left out sorts after all of them.
pub open spec fn near_list(trees: Seq<Tree>, query: Seq<char>, o: Seq<(usize, Seq<char>, Seq<char>)>) -> bool {
    &&& o.len() <= MAX_NEAR
    &&& triples_sorted(o)
    &&& forall|i: int| 0 <= i < o.len() ==> is_near(trees, query, #[trigger] o[i])
    &&& forall|y: (usize, Seq<char>, Seq<char>)|
        is_near(trees, query, y) ==> o.contains(y) || (o.len() == MAX_NEAR && triple_lt(o.last(), y))
}

/// Names in the scanned trees within `MAX_EDIT_DISTANCE` of `query`: the
/// first `MAX_NEAR` of them by distance, name and file, each once.
pub fn near(trees: &[Tree], query: &str) -> (out: Vec<Near>)
    requires
        query@.len() <= usize::MAX / 8,
        all_fit(trees@),
    ensures
        near_list(trees@, query@, near_views(out@)),
{
    let mut found: Vec<(usize, String, String)> = Vec::new();
    for t in 0..trees.len()
        invariant
            query@.len() <= usize::MAX / 8,
            forall|u: int| 0 <= u < trees@.len() ==> slopsquat::names_fit(&#[trigger] trees@[u]),
            triples_sorted(triple_views(found@)),
            forall|y: (usize, Seq<char>, Seq<char>)|
                triple_views(found@).contains(y) <==> near_before(trees@, query@, y, t as int, 0),
    {
        let tree = &trees[t];
        let eco = tree.ecosystem;
        let want = corpus::normalize(eco, query);
        proof {
            corpus::lemma_normalized_len(eco, query@);
            assert(slopsquat::names_fit(&trees@[t as int]));
        }
        for p in 0..tree.packages.len()
            invariant
                t < trees@.len(),
                *tree == trees@[t as int],
                eco == tree.ecosystem,
                want@ == corpus::normalized(eco, query@),
                want@.len() <= usize::MAX / 8,
                slopsquat::names_fit(tree),
                triples_sorted(triple_views(found@)),
                forall|y: (usize, Seq<char>, Seq<char>)|
                    triple_views(found@).contains(y) <==> near_before(
                        trees@,
                        query@,
                        y,
                        t as int,
                        p as int,
                    ),
        {
            let pkg = &tree.packages[p];
            let name = corpus::normalize(eco, pkg.name.as_str());
            proof {
                corpus::lemma_normalized_len(eco, pkg.name@);
                assert(tree.packages@[p as int].name@.len() <= usize::MAX / 8);
            }
            let d = distance::within(want.as_str(), name.as_str(), MAX_EDIT_DISTANCE);
            let ghost here = near_at(trees@, query@, t as int, p as int);
            let ghost old_found = triple_views(found@);
            match d {
                Some(d) => {
                    let x = (d, pkg.name.clone(), tree.source.clone());
                    proof {
                        assert(triple_view(x) == here->0);
                    }
                    insert_triple(&mut found, x);
                },
                None => {
                    proof {
                        assert(here is None);
                    }
                },
            }
            proof {
                assert forall|y: (usize, Seq<char>, Seq<char>)|
                    triple_views(found@).contains(y) <==> near_before(
                        trees@,
                        query@,
                        y,
                        t as int,
                        p + 1,
                    ) by {
                    if near_before(trees@, query@, y, t as int, p + 1) {
                        let (a, b) = choose|a: int, b: int|
                            0 <= a < trees@.len() && 0 <= b < trees@[a].packages@.len() && (a < t || (
                            a == t && b < p + 1)) && #[trigger] near_at(trees@, query@, a, b) == Some(y);
                        if !(a == t && b == p) {
                            assert(near_before(trees@, query@, y, t as int, p as int));
                        }
                    }
                    if near_before(trees@, query@, y, t as int, p as int) {
                        let (a, b) = choose|a: int, b: int|
                            0 <= a < trees@.len() && 0 <= b < trees@[a].packages@.len() && (a < t || (
                            a == t && b < p)) && #[trigger] near_at(trees@, query@, a, b) == Some(y);
                        assert(near_at(trees@, query@, a, b) == Some(y));
                    }
                    if here == Some(y) {
                        assert(near_at(trees@, query@, t as int, p as int) == Some(y));
                    }
                }
            }
        }
        proof {
            assert forall|y: (usize, Seq<char>, Seq<char>)|
                near_before(trees@, query@, y, t as int, tree.packages@.len() as int)
                    == near_before(trees@, query@, y, t + 1, 0) by {
                if near_before(trees@, query@, y, t + 1, 0) {
                    let (a, b) = choose|a: int, b: int|
                        0 <= a < trees@.len() && 0 <= b < trees@[a].packages@.len() && (a < t + 1 || (a
                        == t + 1 && b < 0)) && #[trigger] near_at(trees@, query@, a, b) == Some(y);
                    assert(near_at(trees@, query@, a, b) == Some(y));
                }
                if near_before(trees@, query@, y, t as int, tree.packages@.len() as int) {
                    let (a, b) = choose|a: int, b: int|
                        0 <= a < trees@.len() && 0 <= b < trees@[a].packages@.len() && (a < t || (a == t
                        && b < tree.packages@.len())) && #[trigger] near_at(trees@, query@, a, b) == Some(y);
                    assert(near_at(trees@, query@, a, b) == Some(y));
                }
            }
        }
    }
    let ghost all = triple_views(found@);
    let mut out: Vec<Near> = Vec::new();
    let mut k: usize = 0;
    while k < found.len() && k < MAX_NEAR
        invariant
            all == triple_views(found@),
            k <= found@.len(),
            k <= MAX_NEAR,
            near_views(out@) == all.take(k as int),
        decreases found@.len() - k,
    {
        let (d, name, source) = (found[k].0, found[k].1.clone(), found[k].2.clone());
        let ghost before = out@;
        out.push(Near { name, source, distance: d });
        proof {
            assert(near_views(out@) =~= near_views(before).push(all[k as int]));
            assert(all.take(k + 1) =~= all.take(k as int).push(all[k as int]));
        }
        k = k + 1;
    }
    proof {
        let o = near_views(out@);
        assert forall|i: int, j: int| 0 <= i < j < o.len() implies triple_lt(#[trigger] o[i], #[trigger] o[j]) by {
            assert(o[i] == all[i] && o[j] == all[j]);
        }
        assert forall|i: int| 0 <= i < o.len() implies is_near(trees@, query@, #[trigger] o[i]) by {
            assert(o[i] == all[i]);
            assert(all.contains(all[i]));
        }
        assert forall|y: (usize, Seq<char>, Seq<char>)| is_near(trees@, query@, y) implies o.contains(y) || (
        o.len() == MAX_NEAR && triple_lt(o.last(), y)) by {
            assert(all.contains(y));
            let j = choose|j: int| 0 <= j < all.len() && all[j] == y;
            if j < k {
                assert(o[j] == y);
            } else {
                assert(o.last() == all[k - 1]);
            }
        }
    }
    out
}

/// One answer to one question about one name, ready to render.
pub struct Report<'a> {
    pub query: &'a str,
    /// What the user pointed at, for the sentence when nothing matches.
    pub root: &'a str,
    pub scanned: usize,
    pub depth: usize,
    pub hits: Vec<Hit<'a>>,
    pub near: Vec<Near>,
}

/// The trees a report can be built over: names short enough to measure.
pub open spec fn all_fit(trees: Seq<Tree>) -> bool {
    forall|t: int| 0 <= t < trees.len() ==> slopsquat::names_fit(&#[trigger] trees[t])
}

impl<'a> Report<'a> {
    /// The hits for `query`, and the near names only when there are none.
    pub fn build(trees: &'a [Tree], query: &'a str, root: &'a str, depth: usize) -> (r: Report<'a>)
        requires
            query@.len() <= usize::MAX / 8,
            all_fit(trees@),
        ensures
            r.query == query,
            r.root == root,
            r.scanned == trees@.len(),
            r.depth == depth,
            hit_pairs(r.hits@) == resolve_spec(trees@, query@),
            r.hits@.len() == 0 ==> near_list(trees@, query@, near_views(r.near@)),
            r.hits@.len() > 0 ==> r.near@.len() == 0,
            (forall|t: int| 0 <= t < trees@.len() ==> (#[trigger] trees@[t]).edges_in_range()) ==> hits_ok(r.hits@),
    {
        let hits = resolve(trees, query);
        let near = if hits.len() == 0 {
            near(trees, query)
        } else {
            Vec::new()
        };
        proof {
            if forall|t: int| 0 <= t < trees@.len() ==> (#[trigger] trees@[t]).edges_in_range() {
                assert forall|i: int| 0 <= i < hits@.len() implies (#[trigger] hits@[i]).tree.edges_in_range()
                    && hits@[i].index < hits@[i].tree.packages@.len() by {
                    let j = choose|j: int| 0 <= j < trees@.len() && trees@[j] == *hits@[i].tree;
                    assert(trees@[j].edges_in_range());
                }
            }
        }
        Report { query, root, scanned: trees.len(), depth, hits, near }
    }
}

/// `name@version`, or the bare name when the entry has no version.
pub open spec fn label_text(p: Package) -> Seq<char> {
    if p.version@.len() == 0 {
        p.name@
    } else {
        p.name@ + "@"@ + p.version@
    }
}

fn label(pkg: &Package) -> (s: String)
    ensures
        s@ == label_text(*pkg),
{
    if pkg.version.as_str().is_empty() {
        pkg.name.clone()
    } else {
        let mut s = pkg.name.clone();
        text::append(&mut s, "@");
        text::append(&mut s, pkg.version.as_str());
        s
    }
}

/// The indent that lines up with the text after a section label.
pub open spec fn gutter() -> Seq<char> {
    "     "@ + report::pad_text(""@, LABEL as int)
}

fn gutter_of() -> (s: String)
    ensures
        s@ == gutter(),
{
    let mut s = text::owned("     ");
    text::append(&mut s, term::pad("", LABEL).as_str());
    s
}

/// A line of text in the gutter.
pub open spec fn plain_line(l: Seq<char>) -> Seq<char> {
    gutter() + l + "\n"@
}

/// A line of dim text in the gutter.
pub open spec fn dim_line(color: bool, l: Seq<char>) -> Seq<char> {
    gutter() + term::painted(color, Style::Dim, l) + "\n"@
}

/// A section label padded to its column, then `rest`, then a newline.
pub open spec fn labelled(label: Seq<char>, rest: Seq<char>) -> Seq<char> {
    "     "@ + report::pad_text(label, LABEL as int) + rest + "\n"@
}

/// The flat-format answer: the absence of edges is the file declining to
/// record any, not a measurement of zero.
pub open spec fn no_graph_text(quiet: bool) -> Seq<char> {
    labelled("flat format"@, "no graph in this file"@) + (if quiet {
        seq![]
    } else {
        plain_line("requirements.txt records no dependency edges at all, so"@) + plain_line(
            "there is no in-degree here to read and no out-edges to"@,
        ) + plain_line("walk. Every package in it trivially has in-degree 0,"@) + plain_line(
            "which is why clause 3 is vacuous on a flat file and the"@,
        ) + plain_line("rule falls back to two clauses. Point this at a"@) + plain_line(
            "poetry.lock or a uv.lock and there is a graph to look at."@,
        )
    })
}

/// The entry's own key, but only when it says something its label does not.
pub open spec fn key_suffix(color: bool, p: Package) -> Seq<char> {
    if p.key@ == p.name@ || p.key@ == label_text(p) || p.key@ == p.name@ + " "@ + p.version@ {
        seq![]
    } else {
        "   "@ + term::painted(color, Style::Dim, p.key@)
    }
}

/// The entry's label, and a note when it is a workspace member.
pub open spec fn head_text(color: bool, p: Package) -> Seq<char> {
    "\n"@ + "  "@ + label_text(p) + key_suffix(color, p) + "\n"@ + (if p.first_party {
        "     "@ + term::painted(color, Style::Dim, "workspace member — your own code, not a stranger"@)
            + "\n"@
    } else {
        seq![]
    }) + "\n"@
}

/// In-degree zero, said in the words the finding uses, and why it matters.
pub open spec fn orphan_text(color: bool, first_party: bool, is_root: bool, quiet: bool) -> Seq<char> {
    let headline = if first_party {
        term::painted(color, Style::Dim, "in-degree 0"@)
    } else {
        term::painted(color, Style::Red, "in-degree 0 · root-only, no parent"@)
    };
    labelled("depended on by"@, headline) + (if quiet {
        seq![]
    } else if first_party {
        dim_line(color, "nothing in this lockfile depends on it, which for your"@) + dim_line(
            color,
            "own code is the ordinary shape. The name rules skip"@,
        ) + dim_line(color, "first-party entries, so clause 3 of the co-occurrence"@) + dim_line(
            color,
            "rule is never asked about this one."@,
        )
    } else if is_root {
        dim_line(color, "nothing in this lockfile depends on it. The only"@) + dim_line(
            color,
            "reference to the name in the file is the manifest under"@,
        ) + dim_line(color, "audit. That is clause 3 of the co-occurrence rule: a"@) + dim_line(
            color,
            "hallucinated package is a root dependency, because"@,
        ) + dim_line(color, "nothing real has ever heard of it."@)
    } else {
        dim_line(color, "nothing in this lockfile depends on it, and no manifest"@) + dim_line(
            color,
            "here names it either. That is clause 3 of the"@,
        ) + dim_line(color, "co-occurrence rule: a hallucinated package is a root"@) + dim_line(
            color,
            "dependency, because nothing real has ever heard of it."@,
        )
    })
}

/// How many times `x` occurs in `s`.
pub open spec fn count_eq(s: Seq<Seq<char>>, x: Seq<char>) -> nat
    decreases s.len(),
{
    if s.len() == 0 {
        0
    } else {
        count_eq(s.drop_last(), x) + if s.last() == x {
            1nat
        } else {
            0nat
        }
    }
}

pub open spec fn labels_of(pkgs: Seq<Package>, idx: Seq<usize>) -> Seq<Seq<char>> {
    idx.map_values(|i: usize| label_text(pkgs[i as int]))
}

/// A parent's line: its label, and its key when another parent has the same
/// label.
pub open spec fn parent_line(color: bool, pkgs: Seq<Package>, parents: Seq<usize>, k: int) -> Seq<char> {
    let labels = labels_of(pkgs, parents);
    gutter() + labels[k] + (if count_eq(labels, labels[k]) > 1 {
        "   "@ + term::painted(color, Style::Dim, pkgs[parents[k] as int].key@)
    } else {
        seq![]
    }) + "\n"@
}

/// The parent lines from the `k`th on.
pub open spec fn parent_lines(color: bool, pkgs: Seq<Package>, parents: Seq<usize>, k: int) -> Seq<char>
    decreases parents.len() - k,
{
    if k < 0 || k >= parents.len() {
        seq![]
    } else {
        parent_line(color, pkgs, parents, k) + parent_lines(color, pkgs, parents, k + 1)
    }
}

/// How many direct dependencies, and how far down they print.
pub open spec fn count_text(direct: nat, limit: nat) -> Seq<char> {
    if direct == 0 {
        "nothing"@
    } else if limit == 0 {
        text::decimal(direct) + " direct, all the way down"@
    } else {
        text::decimal(direct) + " direct, to depth "@ + text::decimal(limit)
    }
}

/// What follows a node's label when the walk stopped there.
pub open spec fn stop_note(limit: nat, stop: Option<Stop>) -> Seq<char> {
    match stop {
        None => seq![],
        Some(Stop::Cycle) => " · cycle, back to a name already above it"@,
        Some(Stop::Repeat) => " (*)"@,
        Some(Stop::Depth(n)) => " · "@ + text::decimal(n as nat) + " more below, past --depth "@
            + text::decimal(limit),
    }
}

/// A node and everything under it, drawn.
pub open spec fn branch_text(
    color: bool,
    pkgs: Seq<Package>,
    limit: nat,
    v: NodeView,
    prefix: Seq<char>,
    last: bool,
) -> Seq<char>
    decreases v, 0int,
{
    prefix + term::painted(color, Style::Dim, if last {
        "└─ "@
    } else {
        "├─ "@
    }) + label_text(pkgs[v.index as int]) + term::painted(color, Style::Dim, stop_note(limit, v.stop))
        + "\n"@ + branches_text(color, pkgs, limit, v.deps, prefix + if last {
        "   "@
    } else {
        "│  "@
    }, 0)
}

/// The nodes of `s` from the `k`th on, drawn.
pub open spec fn branches_text(
    color: bool,
    pkgs: Seq<Package>,
    limit: nat,
    s: Seq<NodeView>,
    prefix: Seq<char>,
    k: int,
) -> Seq<char>
    decreases s, s.len() - k,
{
    if k < 0 || k >= s.len() {
        seq![]
    } else {
        branch_text(color, pkgs, limit, s[k], prefix, k + 1 == s.len()) + branches_text(
            color,
            pkgs,
            limit,
            s,
            prefix,
            k + 1,
        )
    }
}

/// Some node at or under `v` was a repeat.
pub open spec fn node_repeats(v: NodeView) -> bool
    decreases v, 0int,
{
    v.stop == Some(Stop::Repeat) || nodes_repeat(v.deps, 0)
}

/// Some node of `s` from the `k`th on, or under one, was a repeat.
pub open spec fn nodes_repeat(s: Seq<NodeView>, k: int) -> bool
    decreases s, s.len() - k,
{
    if k < 0 || k >= s.len() {
        false
    } else {
        node_repeats(s[k]) || nodes_repeat(s, k + 1)
    }
}

/// The edges around entry `index` of a tree that records them.
pub open spec fn graph_text(color: bool, tree: Tree, index: usize, limit: nat, quiet: bool) -> Seq<char> {
    let pkgs = tree.packages@;
    let pkg = pkgs[index as int];
    let parents = parents_of(&tree, index);
    let nodes = walk_spec(tree, index, limit);
    let direct = kids_of(&tree)[index as int].len();
    (if parents.len() == 0 {
        orphan_text(color, pkg.first_party, tree.roots@.contains(index), quiet)
    } else {
        labelled("depended on by"@, "in-degree "@ + text::decimal(parents.len())) + parent_lines(
            color,
            pkgs,
            parents,
            0,
        )
    }) + "\n"@ + labelled("depends on"@, count_text(direct, limit)) + branches_text(
        color,
        pkgs,
        limit,
        nodes,
        "     "@,
        0,
    ) + (if nodes_repeat(nodes, 0) && !quiet {
        "     "@ + term::painted(
            color,
            Style::Dim,
            "(*) its dependencies are printed above — a lockfile is a graph, not a tree"@,
        ) + "\n"@
    } else {
        seq![]
    })
}

/// Everything printed about one hit.
#[verifier::opaque]
pub open spec fn block_text(color: bool, tree: Tree, index: usize, limit: nat, quiet: bool) -> Seq<char> {
    head_text(color, tree.packages@[index as int]) + if tree.records_edges {
        graph_text(color, tree, index, limit, quiet)
    } else {
        no_graph_text(quiet)
    }
}

fn plain_line_of(out: &mut String, l: &str)
    ensures
        final(out)@ == old(out)@ + plain_line(l@),
{
    text::append(out, gutter_of().as_str());
    text::append(out, l);
    text::append(out, "\n");
}

fn dim_line_of(out: &mut String, t: Term, l: &str)
    ensures
        final(out)@ == old(out)@ + dim_line(t.colored(), l@),
{
    text::append(out, gutter_of().as_str());
    text::append(out, t.paint(Style::Dim, l).as_str());
    text::append(out, "\n");
}

fn labelled_of(out: &mut String, label: &str, rest: &str)
    ensures
        final(out)@ == old(out)@ + labelled(label@, rest@),
{
    text::append(out, "     ");
    text::append(out, term::pad(label, LABEL).as_str());
    text::append(out, rest);
    text::append(out, "\n");
}

/// The flat-format answer.
fn no_graph(quiet: bool) -> (out: String)
    ensures
        out@ == no_graph_text(quiet),
{
    let mut out = String::new();
    labelled_of(&mut out, "flat format", "no graph in this file");
    if !quiet {
        plain_line_of(&mut out, "requirements.txt records no dependency edges at all, so");
        plain_line_of(&mut out, "there is no in-degree here to read and no out-edges to");
        plain_line_of(&mut out, "walk. Every package in it trivially has in-degree 0,");
        plain_line_of(&mut out, "which is why clause 3 is vacuous on a flat file and the");
        plain_line_of(&mut out, "rule falls back to two clauses. Point this at a");
        plain_line_of(&mut out, "poetry.lock or a uv.lock and there is a graph to look at.");
    }
    proof {
        assert(out@ =~= no_graph_text(quiet));
    }
    out
}

fn head(t: Term, pkg: &Package) -> (out: String)
    ensures
        out@ == head_text(t.colored(), *pkg),
{
    let shown = label(pkg);
    let mut spaced = pkg.name.clone();
    text::append(&mut spaced, " ");
    text::append(&mut spaced, pkg.version.as_str());
    let redundant = text::same(pkg.key.as_str(), pkg.name.as_str()) || text::same(
        pkg.key.as_str(),
        shown.as_str(),
    ) || text::same(pkg.key.as_str(), spaced.as_str());
    let mut out = text::owned("\n");
    text::append(&mut out, "  ");
    text::append(&mut out, shown.as_str());
    if !redundant {
        text::append(&mut out, "   ");
        text::append(&mut out, t.paint(Style::Dim, pkg.key.as_str()).as_str());
    }
    text::append(&mut out, "\n");
    if pkg.first_party {
        text::append(&mut out, "     ");
        text::append(
            &mut out,
            t.paint(Style::Dim, "workspace member — your own code, not a stranger").as_str(),
        );
        text::append(&mut out, "\n");
    }
    text::append(&mut out, "\n");
    proof {
        assert(out@ =~= head_text(t.colored(), *pkg));
    }
    out
}

fn orphan(t: Term, first_party: bool, is_root: bool, quiet: bool) -> (out: String)
    ensures
        out@ == orphan_text(t.colored(), first_party, is_root, quiet),
{
    let headline = if first_party {
        t.paint(Style::Dim, "in-degree 0")
    } else {
        t.paint(Style::Red, "in-degree 0 · root-only, no parent")
    };
    let mut out = String::new();
    labelled_of(&mut out, "depended on by", headline.as_str());
    if !quiet {
        if first_party {
            dim_line_of(&mut out, t, "nothing in this lockfile depends on it, which for your");
            dim_line_of(&mut out, t, "own code is the ordinary shape. The name rules skip");
            dim_line_of(&mut out, t, "first-party entries, so clause 3 of the co-occurrence");
            dim_line_of(&mut out, t, "rule is never asked about this one.");
        } else if is_root {
            dim_line_of(&mut out, t, "nothing in this lockfile depends on it. The only");
            dim_line_of(&mut out, t, "reference to the name in the file is the manifest under");
            dim_line_of(&mut out, t, "audit. That is clause 3 of the co-occurrence rule: a");
            dim_line_of(&mut out, t, "hallucinated package is a root dependency, because");
            dim_line_of(&mut out, t, "nothing real has ever heard of it.");
        } else {
            dim_line_of(&mut out, t, "nothing in this lockfile depends on it, and no manifest");
            dim_line_of(&mut out, t, "here names it either. That is clause 3 of the");
            dim_line_of(&mut out, t, "co-occurrence rule: a hallucinated package is a root");
            dim_line_of(&mut out, t, "dependency, because nothing real has ever heard of it.");
        }
    }
    proof {
        assert(out@ =~= orphan_text(t.colored(), first_party, is_root, quiet));
    }
    out
}

/// The parent lines, with an install path on the ones that would otherwise
/// read the same.
fn parent_rows(t: Term, pkgs: &Vec<Package>, parents: &Vec<usize>) -> (out: String)
    requires
        forall|i: int| 0 <= i < parents@.len() ==> #[trigger] parents@[i] < pkgs@.len(),
    ensures
        out@ == parent_lines(t.colored(), pkgs@, parents@, 0),
{
    let ghost lv = labels_of(pkgs@, parents@);
    let mut labels: Vec<String> = Vec::new();
    for k in 0..parents.len()
        invariant
            forall|i: int| 0 <= i < parents@.len() ==> #[trigger] parents@[i] < pkgs@.len(),
            lv == labels_of(pkgs@, parents@),
            text::strings(labels@) == lv.take(k as int),
    {
        let l = label(&pkgs[parents[k]]);
        let ghost before = labels@;
        labels.push(l);
        proof {
            assert(lv[k as int] == label_text(pkgs@[parents@[k as int] as int]));
            assert(text::strings(labels@) =~= text::strings(before).push(l@));
            assert(lv.take(k + 1) =~= lv.take(k as int).push(lv[k as int]));
        }
    }
    proof {
        assert(lv.take(parents@.len() as int) =~= lv);
    }
    let mut out = String::new();
    for k in 0..parents.len()
        invariant
            forall|i: int| 0 <= i < parents@.len() ==> #[trigger] parents@[i] < pkgs@.len(),
            lv == labels_of(pkgs@, parents@),
            text::strings(labels@) == lv,
            labels@.len() == parents@.len(),
            parent_lines(t.colored(), pkgs@, parents@, 0) == out@ + parent_lines(
                t.colored(),
                pkgs@,
                parents@,
                k as int,
            ),
    {
        let name = labels[k].as_str();
        let mut same: usize = 0;
        for j in 0..labels.len()
            invariant
                text::strings(labels@) == lv,
                labels@.len() == parents@.len(),
                k < labels@.len(),
                name@ == lv[k as int],
                same == count_eq(lv.take(j as int), lv[k as int]),
                same <= j,
        {
            proof {
                assert(lv.take(j + 1).drop_last() =~= lv.take(j as int));
                assert(lv.take(j + 1).last() == labels@[j as int]@);
            }
            if text::same(labels[j].as_str(), name) {
                same = same + 1;
            }
        }
        proof {
            assert(lv.take(labels@.len() as int) =~= lv);
        }
        let ghost before = out@;
        text::append(&mut out, gutter_of().as_str());
        text::append(&mut out, name);
        if same > 1 {
            text::append(&mut out, "   ");
            text::append(&mut out, t.paint(Style::Dim, pkgs[parents[k]].key.as_str()).as_str());
        }
        text::append(&mut out, "\n");
        proof {
            assert(out@ =~= before + parent_line(t.colored(), pkgs@, parents@, k as int));
        }
    }
    out
}

fn count_words(direct: usize, limit: usize) -> (s: String)
    ensures
        s@ == count_text(direct as nat, limit as nat),
{
    if direct == 0 {
        text::owned("nothing")
    } else if limit == 0 {
        let mut s = text::decimal_of(direct as u64);
        text::append(&mut s, " direct, all the way down");
        s
    } else {
        let mut s = text::decimal_of(direct as u64);
        text::append(&mut s, " direct, to depth ");
        text::append(&mut s, text::decimal_of(limit as u64).as_str());
        s
    }
}

fn note_of(limit: usize, stop: Option<Stop>) -> (s: String)
    ensures
        s@ == stop_note(limit as nat, stop),
{
    match stop {
        None => String::new(),
        Some(Stop::Cycle) => text::owned(" · cycle, back to a name already above it"),
        Some(Stop::Repeat) => text::owned(" (*)"),
        Some(Stop::Depth(n)) => {
            let mut s = text::owned(" · ");
            text::append(&mut s, text::decimal_of(n as u64).as_str());
            text::append(&mut s, " more below, past --depth ");
            text::append(&mut s, text::decimal_of(limit as u64).as_str());
            s
        },
    }
}

proof fn lemma_node_deps_in(v: NodeView, n: nat, k: int)
    requires
        node_in(v, n),
        0 <= k < v.deps.len(),
    ensures
        node_in(v.deps[k], n),
{
    lemma_nodes_in_index(v.deps, n, 0, k);
}

/// A node and everything under it, drawn, and whether any of it was a
/// repeat.
fn branch(t: Term, pkgs: &Vec<Package>, limit: usize, node: &Node, prefix: &str, last: bool) -> (r: (
    String,
    bool,
))
    requires
        node_in(node_view(*node), pkgs@.len()),
    ensures
        r.0@ == branch_text(t.colored(), pkgs@, limit as nat, node_view(*node), prefix@, last),
        r.1 == node_repeats(node_view(*node)),
    decreases node,
{
    let ghost v = node_view(*node);
    let ghost color = t.colored();
    let stem = if last {
        "└─ "
    } else {
        "├─ "
    };
    let mut out = text::owned(prefix);
    text::append(&mut out, t.paint(Style::Dim, stem).as_str());
    text::append(&mut out, label(&pkgs[node.index]).as_str());
    text::append(&mut out, t.paint(Style::Dim, note_of(limit, node.stop).as_str()).as_str());
    text::append(&mut out, "\n");
    let mut marked = match node.stop {
        Some(Stop::Repeat) => true,
        _ => false,
    };
    let mut below = text::owned(prefix);
    text::append(
        &mut below,
        if last {
            "   "
        } else {
            "│  "
        },
    );
    let ghost head = out@;
    proof {
        assert(v.deps == nodes_view(node.deps@));
        assert(branch_text(color, pkgs@, limit as nat, v, prefix@, last) == head + branches_text(
            color,
            pkgs@,
            limit as nat,
            v.deps,
            below@,
            0,
        ));
    }
    let n = node.deps.len();
    for k in 0..n
        invariant
            n == node.deps@.len(),
            v == node_view(*node),
            color == t.colored(),
            node_in(v, pkgs@.len()),
            v.deps == nodes_view(node.deps@),
            branch_text(color, pkgs@, limit as nat, v, prefix@, last) == out@ + branches_text(
                color,
                pkgs@,
                limit as nat,
                v.deps,
                below@,
                k as int,
            ),
            node_repeats(v) == (marked || nodes_repeat(v.deps, k as int)),
    {
        let kid = &node.deps[k];
        proof {
            assert(v.deps[k as int] == node_view(*kid));
            lemma_node_deps_in(v, pkgs@.len(), k as int);
        }
        let (drawn, rep) = branch(t, pkgs, limit, kid, below.as_str(), k + 1 == n);
        text::append(&mut out, drawn.as_str());
        marked = marked || rep;
    }
    (out, marked)
}

fn contains_index(v: &Vec<usize>, x: usize) -> (r: bool)
    ensures
        r == v@.contains(x),
{
    for i in 0..v.len()
        invariant
            forall|j: int| 0 <= j < i ==> v@[j] != x,
    {
        if v[i] == x {
            proof {
                assert(v@[i as int] == x);
            }
            return true;
        }
    }
    false
}

/// The walk's top nodes drawn under the section label, and whether any of
/// them was a repeat.
fn draw(t: Term, pkgs: &Vec<Package>, limit: usize, nodes: &Vec<Node>) -> (r: (String, bool))
    requires
        nodes_in(nodes_view(nodes@), pkgs@.len(), 0),
    ensures
        r.0@ == branches_text(t.colored(), pkgs@, limit as nat, nodes_view(nodes@), "     "@, 0),
        r.1 == nodes_repeat(nodes_view(nodes@), 0),
{
    let ghost nv = nodes_view(nodes@);
    let ghost color = t.colored();
    let mut out = String::new();
    let mut marked = false;
    for i in 0..nodes.len()
        invariant
            nv == nodes_view(nodes@),
            color == t.colored(),
            nodes_in(nv, pkgs@.len(), 0),
            branches_text(color, pkgs@, limit as nat, nv, "     "@, 0) == out@ + branches_text(
                color,
                pkgs@,
                limit as nat,
                nv,
                "     "@,
                i as int,
            ),
            nodes_repeat(nv, 0) == (marked || nodes_repeat(nv, i as int)),
    {
        proof {
            lemma_nodes_in_index(nv, pkgs@.len(), 0, i as int);
            assert(nv[i as int] == node_view(nodes@[i as int]));
        }
        let (drawn, rep) = branch(t, pkgs, limit, &nodes[i], "     ", i + 1 == nodes.len());
        text::append(&mut out, drawn.as_str());
        marked = marked || rep;
    }
    proof {
        assert(out@ + branches_text(color, pkgs@, limit as nat, nv, "     "@, nv.len() as int) =~= out@);
    }
    (out, marked)
}

/// The edges around a hit in a tree that records them.
fn graph(t: Term, hit: &Hit<'_>, limit: usize, quiet: bool) -> (out: String)
    requires
        hit.tree.edges_in_range(),
        hit.index < hit.tree.packages@.len(),
    ensures
        out@ == graph_text(t.colored(), *hit.tree, hit.index, limit as nat, quiet),
{
    let tree = hit.tree;
    let pkg = hit.pkg();
    let parents = hit.parents();
    let mut out = if parents.len() == 0 {
        let is_root = contains_index(&tree.roots, hit.index);
        orphan(t, pkg.first_party, is_root, quiet)
    } else {
        let mut degree = text::owned("in-degree ");
        text::append(&mut degree, text::decimal_of(parents.len() as u64).as_str());
        let mut o = String::new();
        labelled_of(&mut o, "depended on by", degree.as_str());
        text::append(&mut o, parent_rows(t, &tree.packages, &parents).as_str());
        o
    };
    text::append(&mut out, "\n");
    let (nodes, direct) = walk(tree, hit.index, limit);
    labelled_of(&mut out, "depends on", count_words(direct, limit).as_str());
    let (drawn, marked) = draw(t, &tree.packages, limit, &nodes);
    text::append(&mut out, drawn.as_str());
    if marked && !quiet {
        text::append(&mut out, "     ");
        text::append(
            &mut out,
            t.paint(
                Style::Dim,
                "(*) its dependencies are printed above — a lockfile is a graph, not a tree",
            ).as_str(),
        );
        text::append(&mut out, "\n");
    }
    proof {
        assert(out@ =~= graph_text(t.colored(), *tree, hit.index, limit as nat, quiet));
    }
    out
}

/// Everything printed about one hit.
fn block(t: Term, hit: &Hit<'_>, limit: usize, quiet: bool) -> (out: String)
    requires
        hit.tree.edges_in_range(),
        hit.index < hit.tree.packages@.len(),
    ensures
        out@ == block_text(t.colored(), *hit.tree, hit.index, limit as nat, quiet),
{
    proof {
        reveal(block_text);
    }
    let mut out = head(t, hit.pkg());
    if hit.tree.records_edges {
        text::append(&mut out, graph(t, hit, limit, quiet).as_str());
    } else {
        text::append(&mut out, no_graph(quiet).as_str());
    }
    out
}

/// Every hit names an entry of a well-formed tree.
pub open spec fn hits_ok<'a>(hits: Seq<Hit<'a>>) -> bool {
    forall|i: int|
        0 <= i < hits.len() ==> (#[trigger] hits[i]).tree.edges_in_range() && hits[i].index
            < hits[i].tree.packages@.len()
}

/// The line that opens each lockfile's hits.
pub open spec fn source_header(tree: Tree) -> Seq<char> {
    "\n"@ + "  "@ + tree.source@ + "   "@ + lock::ecosystem_name(tree.ecosystem) + " · "@
        + report::grouped(text::decimal(lock::count_third_party(tree.packages@))) + " packages\n"@
}

/// The hits from the `k`th on, each lockfile's opened by its header.
pub open spec fn hits_text(color: bool, hits: Seq<(Tree, usize)>, limit: nat, quiet: bool, k: int) -> Seq<
    char,
>
    decreases hits.len() - k,
{
    if k < 0 || k >= hits.len() {
        seq![]
    } else {
        (if !quiet && (k == 0 || hits[k].0.source@ != hits[k - 1].0.source@) {
            source_header(hits[k].0)
        } else {
            seq![]
        }) + block_text(color, hits[k].0, hits[k].1, limit, quiet) + hits_text(
            color,
            hits,
            limit,
            quiet,
            k + 1,
        )
    }
}

/// A near name's line.
pub open spec fn near_line(color: bool, n: (usize, Seq<char>, Seq<char>), width: int) -> Seq<char> {
    "     "@ + report::pad_text(n.1, width) + " "@ + term::painted(
        color,
        Style::Dim,
        "d="@ + text::decimal(n.0 as nat) + " · "@ + n.2,
    ) + "\n"@
}

pub open spec fn near_lines(color: bool, near: Seq<(usize, Seq<char>, Seq<char>)>, width: int, k: int) -> Seq<
    char,
>
    decreases near.len() - k,
{
    if k < 0 || k >= near.len() {
        seq![]
    } else {
        near_line(color, near[k], width) + near_lines(color, near, width, k + 1)
    }
}

pub open spec fn near_names(near: Seq<(usize, Seq<char>, Seq<char>)>) -> Seq<Seq<char>> {
    near.map_values(|n: (usize, Seq<char>, Seq<char>)| n.1)
}

/// The answer when nothing matches: where it looked, and what is close.
pub open spec fn missing_text(
    color: bool,
    query: Seq<char>,
    root: Seq<char>,
    scanned: nat,
    near: Seq<(usize, Seq<char>, Seq<char>)>,
) -> Seq<char> {
    "\n"@ + "  no package named `"@ + query + "` in the "@ + text::decimal(scanned) + " lockfile"@ + (
    if scanned == 1 {
        seq![]
    } else {
        "s"@
    }) + " under "@ + root + "\n"@ + if near.len() == 0 {
        "  "@ + term::painted(
            color,
            Style::Dim,
            "nothing within "@ + text::decimal(MAX_EDIT_DISTANCE as nat) + " edits of it either"@,
        ) + "\n"@ + "\n"@
    } else {
        "\n"@ + "  close names that are there:\n"@ + near_lines(
            color,
            near,
            term::column_width(near_names(near), NEAR_MIN as int),
            0,
        ) + "\n"@
    }
}

/// The answer for a person.
pub open spec fn human_text(
    color: bool,
    query: Seq<char>,
    root: Seq<char>,
    scanned: nat,
    limit: nat,
    hits: Seq<(Tree, usize)>,
    near: Seq<(usize, Seq<char>, Seq<char>)>,
    quiet: bool,
) -> Seq<char> {
    if hits.len() == 0 {
        missing_text(color, query, root, scanned, near)
    } else {
        hits_text(color, hits, limit, quiet, 0) + "\n"@
    }
}

fn source_line(tree: &Tree) -> (out: String)
    ensures
        out@ == source_header(*tree),
{
    let mut out = text::owned("\n");
    text::append(&mut out, "  ");
    text::append(&mut out, tree.source.as_str());
    text::append(&mut out, "   ");
    text::append(&mut out, tree.ecosystem.as_str());
    text::append(&mut out, " · ");
    text::append(&mut out, report::thousands(tree.third_party() as u64).as_str());
    text::append(&mut out, " packages\n");
    out
}

fn missing(t: Term, r: &Report<'_>) -> (out: String)
    ensures
        out@ == missing_text(t.colored(), r.query@, r.root@, r.scanned as nat, near_views(r.near@)),
{
    let ghost nv = near_views(r.near@);
    let mut out = text::owned("\n");
    text::append(&mut out, "  no package named `");
    text::append(&mut out, r.query);
    text::append(&mut out, "` in the ");
    text::append(&mut out, text::decimal_of(r.scanned as u64).as_str());
    text::append(&mut out, " lockfile");
    if r.scanned != 1 {
        text::append(&mut out, "s");
    }
    text::append(&mut out, " under ");
    text::append(&mut out, r.root);
    text::append(&mut out, "\n");
    if r.near.len() == 0 {
        let mut said = text::owned("nothing within ");
        text::append(&mut said, text::decimal_of(MAX_EDIT_DISTANCE as u64).as_str());
        text::append(&mut said, " edits of it either");
        text::append(&mut out, "  ");
        text::append(&mut out, t.paint(Style::Dim, said.as_str()).as_str());
        text::append(&mut out, "\n");
        text::append(&mut out, "\n");
        proof {
            assert(out@ =~= missing_text(t.colored(), r.query@, r.root@, r.scanned as nat, nv));
        }
        return out;
    }
    text::append(&mut out, "\n");
    text::append(&mut out, "  close names that are there:\n");
    let mut names: Vec<String> = Vec::new();
    for i in 0..r.near.len()
        invariant
            nv == near_views(r.near@),
            term::views(names@) == near_names(nv).take(i as int),
    {
        let ghost before = names@;
        names.push(r.near[i].name.clone());
        proof {
            assert(term::views(names@) =~= term::views(before).push(r.near@[i as int].name@));
            assert(near_names(nv).take(i + 1) =~= near_names(nv).take(i as int).push(
                r.near@[i as int].name@,
            ));
        }
    }
    proof {
        assert(near_names(nv).take(r.near@.len() as int) =~= near_names(nv));
    }
    let width = term::column(names.as_slice(), NEAR_MIN);
    let mut lines = String::new();
    for i in 0..r.near.len()
        invariant
            nv == near_views(r.near@),
            width == term::column_width(near_names(nv), NEAR_MIN as int),
            near_lines(t.colored(), nv, width as int, 0) == lines@ + near_lines(
                t.colored(),
                nv,
                width as int,
                i as int,
            ),
    {
        let n = &r.near[i];
        let mut tail = text::owned("d=");
        text::append(&mut tail, text::decimal_of(n.distance as u64).as_str());
        text::append(&mut tail, " · ");
        text::append(&mut tail, n.source.as_str());
        let ghost before = lines@;
        text::append(&mut lines, "     ");
        text::append(&mut lines, term::pad(n.name.as_str(), width).as_str());
        text::append(&mut lines, " ");
        text::append(&mut lines, t.paint(Style::Dim, tail.as_str()).as_str());
        text::append(&mut lines, "\n");
        proof {
            assert(nv[i as int] == near_view(*n));
            assert(lines@ =~= before + near_line(t.colored(), nv[i as int], width as int));
        }
    }
    proof {
        assert(lines@ + near_lines(t.colored(), nv, width as int, nv.len() as int) =~= lines@);
    }
    text::append(&mut out, lines.as_str());
    text::append(&mut out, "\n");
    proof {
        assert(out@ =~= missing_text(t.colored(), r.query@, r.root@, r.scanned as nat, nv));
    }
    out
}

/// The answer for a person: each hit with the edges around it, a header per
/// lockfile, or where it looked and what is close when nothing matched.
pub fn human(t: Term, r: &Report<'_>, quiet: bool) -> (out: String)
    requires
        hits_ok(r.hits@),
    ensures
        out@ == human_text(
            t.colored(),
            r.query@,
            r.root@,
            r.scanned as nat,
            r.depth as nat,
            hit_pairs(r.hits@),
            near_views(r.near@),
            quiet,
        ),
{
    if r.hits.len() == 0 {
        return missing(t, r);
    }
    let ghost hv = hit_pairs(r.hits@);
    let ghost color = t.colored();
    let mut out = String::new();
    for k in 0..r.hits.len()
        invariant
            hv == hit_pairs(r.hits@),
            color == t.colored(),
            hits_ok(r.hits@),
            hits_text(color, hv, r.depth as nat, quiet, 0) == out@ + hits_text(
                color,
                hv,
                r.depth as nat,
                quiet,
                k as int,
            ),
    {
        let hit = &r.hits[k];
        proof {
            assert(hits_ok(r.hits@));
            assert(hit.tree.edges_in_range());
            assert(hv[k as int] == (*hit.tree, hit.index));
        }
        let ghost before = out@;
        let fresh = k == 0 || !text::same(r.hits[k - 1].tree.source.as_str(), hit.tree.source.as_str());
        proof {
            if k > 0 {
                assert(hv[k - 1] == (*r.hits@[k - 1].tree, r.hits@[k - 1].index));
            }
        }
        if !quiet && fresh {
            text::append(&mut out, source_line(hit.tree).as_str());
        }
        text::append(&mut out, block(t, hit, r.depth, quiet).as_str());
        proof {
            assert(out@ =~= before + (if !quiet && (k == 0 || hv[k as int].0.source@ != hv[k
                - 1].0.source@) {
                source_header(hv[k as int].0)
            } else {
                seq![]
            }) + block_text(color, hv[k as int].0, hv[k as int].1, r.depth as nat, quiet));
        }
    }
    proof {
        assert(out@ + hits_text(color, hv, r.depth as nat, quiet, hv.len() as int) =~= out@);
    }
    text::append(&mut out, "\n");
    out
}

pub open spec fn bool_text(b: bool) -> Seq<char> {
    if b {
        "true"@
    } else {
        "false"@
    }
}

/// An object opened with the two fields every node carries, left open.
pub open spec fn entry_text(p: Package) -> Seq<char> {
    "{\"name\":"@ + report::json_string(p.name@) + ",\"version\":"@ + report::json_string(p.version@)
}

/// A node of the walk and everything under it, as JSON.
pub open spec fn node_json(pkgs: Seq<Package>, v: NodeView) -> Seq<char>
    decreases v, 0int,
{
    entry_text(pkgs[v.index as int]) + (match v.stop {
        None => seq![],
        Some(st) => ",\"stop\":"@ + report::json_string(stop_id(st)) + (match st {
            Stop::Depth(h) => ",\"hidden\":"@ + text::decimal(h as nat),
            _ => seq![],
        }),
    }) + ",\"dependencies\":["@ + nodes_json(pkgs, v.deps, 0) + "]}"@
}

/// The nodes of `s` from the `k`th on, comma-separated.
pub open spec fn nodes_json(pkgs: Seq<Package>, s: Seq<NodeView>, k: int) -> Seq<char>
    decreases s, s.len() - k,
{
    if k < 0 || k >= s.len() {
        seq![]
    } else {
        (if k > 0 {
            ","@
        } else {
            seq![]
        }) + node_json(pkgs, s[k]) + nodes_json(pkgs, s, k + 1)
    }
}

/// The parents from the `k`th on, comma-separated.
pub open spec fn parents_json(pkgs: Seq<Package>, parents: Seq<usize>, k: int) -> Seq<char>
    decreases parents.len() - k,
{
    if k < 0 || k >= parents.len() {
        seq![]
    } else {
        (if k > 0 {
            ","@
        } else {
            seq![]
        }) + entry_text(pkgs[parents[k] as int]) + "}"@ + parents_json(pkgs, parents, k + 1)
    }
}

/// A hit's own fields, as the start of its JSON object.
pub open spec fn occurrence_head(tree: Tree, index: usize) -> Seq<char> {
    let p = tree.packages@[index as int];
    "{\"source\":"@ + report::json_string(tree.source@) + ",\"ecosystem\":"@ + report::json_string(
        lock::ecosystem_name(tree.ecosystem),
    ) + ",\"name\":"@ + report::json_string(p.name@) + ",\"version\":"@ + report::json_string(
        p.version@,
    ) + ",\"key\":"@ + report::json_string(p.key@) + ",\"first_party\":"@ + bool_text(p.first_party)
        + ",\"direct\":"@ + bool_text(tree.roots@.contains(index)) + ",\"records_edges\":"@
        + bool_text(tree.records_edges)
}

/// The edges around a hit, closing its JSON object. `in_degree` is null and
/// not 0 on a flat format: 0 would be a measurement nobody took.
pub open spec fn occurrence_edges(tree: Tree, index: usize, limit: nat) -> Seq<char> {
    if !tree.records_edges {
        ",\"in_degree\":null,\"parents\":[],\"dependencies\":[]}"@
    } else {
        let parents = parents_of(&tree, index);
        ",\"in_degree\":"@ + text::decimal(parents.len()) + ",\"parents\":["@ + parents_json(
            tree.packages@,
            parents,
            0,
        ) + "],\"dependencies\":["@ + nodes_json(tree.packages@, walk_spec(tree, index, limit), 0)
            + "]}"@
    }
}

/// One hit as JSON.
pub open spec fn occurrence_text(tree: Tree, index: usize, limit: nat) -> Seq<char> {
    occurrence_head(tree, index) + occurrence_edges(tree, index, limit)
}

pub open spec fn occurrences_json(hits: Seq<(Tree, usize)>, limit: nat, k: int) -> Seq<char>
    decreases hits.len() - k,
{
    if k < 0 || k >= hits.len() {
        seq![]
    } else {
        (if k > 0 {
            ","@
        } else {
            seq![]
        }) + occurrence_text(hits[k].0, hits[k].1, limit) + occurrences_json(hits, limit, k + 1)
    }
}

pub open spec fn near_json(near: Seq<(usize, Seq<char>, Seq<char>)>, k: int) -> Seq<char>
    decreases near.len() - k,
{
    if k < 0 || k >= near.len() {
        seq![]
    } else {
        (if k > 0 {
            ","@
        } else {
            seq![]
        }) + near_object_text(near[k]) + near_json(near, k + 1)
    }
}

pub open spec fn near_object_text(n: (usize, Seq<char>, Seq<char>)) -> Seq<char> {
    "{\"name\":"@ + report::json_string(n.1) + ",\"distance\":"@ + text::decimal(n.0 as nat)
        + ",\"source\":"@ + report::json_string(n.2) + "}"@
}

fn near_object(n: &Near) -> (out: String)
    ensures
        out@ == near_object_text(near_view(*n)),
{
    let mut out = text::owned("{\"name\":");
    text::append(&mut out, report::string(n.name.as_str()).as_str());
    text::append(&mut out, ",\"distance\":");
    text::append(&mut out, text::decimal_of(n.distance as u64).as_str());
    text::append(&mut out, ",\"source\":");
    text::append(&mut out, report::string(n.source.as_str()).as_str());
    text::append(&mut out, "}");
    out
}

/// The answer as one JSON object on one line.
pub open spec fn json_text(
    query: Seq<char>,
    scanned: nat,
    limit: nat,
    hits: Seq<(Tree, usize)>,
    near: Seq<(usize, Seq<char>, Seq<char>)>,
) -> Seq<char> {
    "{\"query\":"@ + report::json_string(query) + ",\"found\":"@ + bool_text(hits.len() > 0)
        + ",\"lockfiles\":"@ + text::decimal(scanned) + ",\"depth\":"@ + text::decimal(limit)
        + ",\"occurrences\":["@ + occurrences_json(hits, limit, 0) + "],\"near\":["@ + near_json(
        near,
        0,
    ) + "]}\n"@
}

fn bool_word(b: bool) -> (s: &'static str)
    ensures
        s@ == bool_text(b),
{
    if b {
        "true"
    } else {
        "false"
    }
}

fn entry(pkg: &Package) -> (out: String)
    ensures
        out@ == entry_text(*pkg),
{
    let mut out = text::owned("{\"name\":");
    text::append(&mut out, report::string(pkg.name.as_str()).as_str());
    text::append(&mut out, ",\"version\":");
    text::append(&mut out, report::string(pkg.version.as_str()).as_str());
    out
}

/// A node of the walk and everything under it, as JSON.
fn node_object(pkgs: &Vec<Package>, node: &Node) -> (out: String)
    requires
        node_in(node_view(*node), pkgs@.len()),
    ensures
        out@ == node_json(pkgs@, node_view(*node)),
    decreases node,
{
    let ghost v = node_view(*node);
    let mut out = entry(&pkgs[node.index]);
    match node.stop {
        None => {},
        Some(st) => {
            text::append(&mut out, ",\"stop\":");
            text::append(&mut out, report::string(st.id()).as_str());
            match st {
                Stop::Depth(hidden) => {
                    text::append(&mut out, ",\"hidden\":");
                    text::append(&mut out, text::decimal_of(hidden as u64).as_str());
                },
                _ => {},
            }
        },
    }
    text::append(&mut out, ",\"dependencies\":[");
    let ghost head = out@;
    let mut inner = String::new();
    for k in 0..node.deps.len()
        invariant
            v == node_view(*node),
            v.deps == nodes_view(node.deps@),
            node_in(v, pkgs@.len()),
            nodes_json(pkgs@, v.deps, 0) == inner@ + nodes_json(pkgs@, v.deps, k as int),
    {
        let kid = &node.deps[k];
        proof {
            assert(v.deps[k as int] == node_view(*kid));
            lemma_node_deps_in(v, pkgs@.len(), k as int);
        }
        if k > 0 {
            text::append(&mut inner, ",");
        }
        text::append(&mut inner, node_object(pkgs, kid).as_str());
    }
    proof {
        assert(inner@ + nodes_json(pkgs@, v.deps, v.deps.len() as int) =~= inner@);
    }
    text::append(&mut out, inner.as_str());
    text::append(&mut out, "]}");
    proof {
        assert(out@ =~= node_json(pkgs@, v));
    }
    out
}

fn nodes_array(pkgs: &Vec<Package>, nodes: &Vec<Node>) -> (out: String)
    requires
        nodes_in(nodes_view(nodes@), pkgs@.len(), 0),
    ensures
        out@ == nodes_json(pkgs@, nodes_view(nodes@), 0),
{
    let ghost nv = nodes_view(nodes@);
    let mut out = String::new();
    for k in 0..nodes.len()
        invariant
            nv == nodes_view(nodes@),
            nodes_in(nv, pkgs@.len(), 0),
            nodes_json(pkgs@, nv, 0) == out@ + nodes_json(pkgs@, nv, k as int),
    {
        proof {
            lemma_nodes_in_index(nv, pkgs@.len(), 0, k as int);
            assert(nv[k as int] == node_view(nodes@[k as int]));
        }
        if k > 0 {
            text::append(&mut out, ",");
        }
        text::append(&mut out, node_object(pkgs, &nodes[k]).as_str());
    }
    proof {
        assert(out@ + nodes_json(pkgs@, nv, nv.len() as int) =~= out@);
    }
    out
}

fn parents_array(pkgs: &Vec<Package>, parents: &Vec<usize>) -> (out: String)
    requires
        forall|i: int| 0 <= i < parents@.len() ==> #[trigger] parents@[i] < pkgs@.len(),
    ensures
        out@ == parents_json(pkgs@, parents@, 0),
{
    let mut out = String::new();
    for k in 0..parents.len()
        invariant
            forall|i: int| 0 <= i < parents@.len() ==> #[trigger] parents@[i] < pkgs@.len(),
            parents_json(pkgs@, parents@, 0) == out@ + parents_json(pkgs@, parents@, k as int),
    {
        let ghost before = out@;
        if k > 0 {
            text::append(&mut out, ",");
        }
        text::append(&mut out, entry(&pkgs[parents[k]]).as_str());
        text::append(&mut out, "}");
        proof {
            assert(out@ =~= before + (if k > 0 {
                ","@
            } else {
                seq![]
            }) + entry_text(pkgs@[parents@[k as int] as int]) + "}"@);
        }
    }
    proof {
        assert(out@ + parents_json(pkgs@, parents@, parents@.len() as int) =~= out@);
    }
    out
}

fn occurrence_fields(hit: &Hit<'_>) -> (out: String)
    requires
        hit.index < hit.tree.packages@.len(),
    ensures
        out@ == occurrence_head(*hit.tree, hit.index),
{
    let tree = hit.tree;
    let pkg = hit.pkg();
    let mut out = text::owned("{\"source\":");
    text::append(&mut out, report::string(tree.source.as_str()).as_str());
    text::append(&mut out, ",\"ecosystem\":");
    text::append(&mut out, report::string(tree.ecosystem.as_str()).as_str());
    text::append(&mut out, ",\"name\":");
    text::append(&mut out, report::string(pkg.name.as_str()).as_str());
    text::append(&mut out, ",\"version\":");
    text::append(&mut out, report::string(pkg.version.as_str()).as_str());
    text::append(&mut out, ",\"key\":");
    text::append(&mut out, report::string(pkg.key.as_str()).as_str());
    text::append(&mut out, ",\"first_party\":");
    text::append(&mut out, bool_word(pkg.first_party));
    text::append(&mut out, ",\"direct\":");
    text::append(&mut out, bool_word(contains_index(&tree.roots, hit.index)));
    text::append(&mut out, ",\"records_edges\":");
    text::append(&mut out, bool_word(tree.records_edges));
    out
}

fn occurrence_links(hit: &Hit<'_>, limit: usize) -> (out: String)
    requires
        hit.tree.edges_in_range(),
        hit.index < hit.tree.packages@.len(),
    ensures
        out@ == occurrence_edges(*hit.tree, hit.index, limit as nat),
{
    let tree = hit.tree;
    if !tree.records_edges {
        return text::owned(",\"in_degree\":null,\"parents\":[],\"dependencies\":[]}");
    }
    let parents = hit.parents();
    let mut out = text::owned(",\"in_degree\":");
    text::append(&mut out, text::decimal_of(parents.len() as u64).as_str());
    text::append(&mut out, ",\"parents\":[");
    text::append(&mut out, parents_array(&tree.packages, &parents).as_str());
    text::append(&mut out, "],\"dependencies\":[");
    let (nodes, _) = walk(tree, hit.index, limit);
    text::append(&mut out, nodes_array(&tree.packages, &nodes).as_str());
    text::append(&mut out, "]}");
    out
}

fn occurrence(hit: &Hit<'_>, limit: usize) -> (out: String)
    requires
        hit.tree.edges_in_range(),
        hit.index < hit.tree.packages@.len(),
    ensures
        out@ == occurrence_text(*hit.tree, hit.index, limit as nat),
{
    let mut out = occurrence_fields(hit);
    text::append(&mut out, occurrence_links(hit, limit).as_str());
    out
}

/// The answer as one object on one line: it is in these files, or in none
/// of them, which a stream of per-file objects could not say.
#[verifier::spinoff_prover]
#[verifier::rlimit(40)]
pub fn json(r: &Report<'_>) -> (out: String)
    requires
        hits_ok(r.hits@),
    ensures
        out@ == json_text(
            r.query@,
            r.scanned as nat,
            r.depth as nat,
            hit_pairs(r.hits@),
            near_views(r.near@),
        ),
{
    let ghost hv = hit_pairs(r.hits@);
    let ghost nv = near_views(r.near@);
    let mut out = text::owned("{\"query\":");
    text::append(&mut out, report::string(r.query).as_str());
    text::append(&mut out, ",\"found\":");
    text::append(&mut out, bool_word(r.hits.len() > 0));
    text::append(&mut out, ",\"lockfiles\":");
    text::append(&mut out, text::decimal_of(r.scanned as u64).as_str());
    text::append(&mut out, ",\"depth\":");
    text::append(&mut out, text::decimal_of(r.depth as u64).as_str());
    text::append(&mut out, ",\"occurrences\":[");
    let mut occ = String::new();
    for k in 0..r.hits.len()
        invariant
            hv == hit_pairs(r.hits@),
            hits_ok(r.hits@),
            occurrences_json(hv, r.depth as nat, 0) == occ@ + occurrences_json(
                hv,
                r.depth as nat,
                k as int,
            ),
    {
        let hit = &r.hits[k];
        proof {
            assert(hit.tree.edges_in_range());
            assert(hv[k as int] == (*hit.tree, hit.index));
        }
        if k > 0 {
            text::append(&mut occ, ",");
        }
        text::append(&mut occ, occurrence(hit, r.depth).as_str());
    }
    proof {
        assert(occ@ + occurrences_json(hv, r.depth as nat, hv.len() as int) =~= occ@);
    }
    text::append(&mut out, occ.as_str());
    text::append(&mut out, "],\"near\":[");
    let mut ns = String::new();
    for k in 0..r.near.len()
        invariant
            nv == near_views(r.near@),
            near_json(nv, 0) == ns@ + near_json(nv, k as int),
    {
        let n = &r.near[k];
        if k > 0 {
            text::append(&mut ns, ",");
        }
        proof {
            assert(nv[k as int] == near_view(*n));
        }
        text::append(&mut ns, near_object(n).as_str());
    }
    proof {
        assert(ns@ + near_json(nv, nv.len() as int) =~= ns@);
    }
    text::append(&mut out, ns.as_str());
    text::append(&mut out, "]}\n");
    proof {
        assert(out@ =~= json_text(r.query@, r.scanned as nat, r.depth as nat, hv, nv));
    }
    out
}

} // verus!
