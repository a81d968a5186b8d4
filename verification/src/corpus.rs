//! Known-real package names, one sorted list per ecosystem.
//!
//! Names are stored pre-normalised and pre-sorted in *byte* order, because
//! that is the order `str`'s `Ord` uses and therefore the order a binary
//! search needs. A `Corpus` refuses a list that is not in that order rather
//! than answering membership questions wrongly about it.
use crate::distance;
use crate::lock::Ecosystem;
use crate::text;
use vstd::prelude::*;

verus! {

pub open spec fn views(names: Seq<String>) -> Seq<Seq<char>> {
    names.map_values(|n: String| n@)
}

/// Every name sorts no later than the ones after it.
pub open spec fn sorted(names: Seq<Seq<char>>) -> bool {
    forall|i: int, j: int| 0 <= i < j < names.len() ==> text::seq_le(names[i], names[j])
}

/// Every name is already in the form `normalized` gives for `eco`.
pub open spec fn all_normal(eco: Ecosystem, names: Seq<Seq<char>>) -> bool {
    forall|i: int| 0 <= i < names.len() ==> normalized(eco, #[trigger] names[i]) == names[i]
}

/// A list the corpus takes for `eco`: in byte order, every name normalized.
pub open spec fn acceptable(eco: Ecosystem, names: Seq<Seq<char>>) -> bool {
    sorted(names) && all_normal(eco, names)
}

/// The three registry lists. Go has none: proxy.golang.org publishes no
/// ranked list of module paths, so its list is empty by decision.
pub struct Corpus {
    npm: Vec<String>,
    pypi: Vec<String>,
    crates: Vec<String>,
    none: Vec<String>,
}

impl Corpus {
    #[verifier::type_invariant]
    spec fn inv(self) -> bool {
        &&& acceptable(Ecosystem::Npm, views(self.npm@))
        &&& acceptable(Ecosystem::PyPi, views(self.pypi@))
        &&& acceptable(Ecosystem::Crates, views(self.crates@))
        &&& self.none@.len() == 0
    }

    /// The list for one ecosystem.
    pub closed spec fn list(self, eco: Ecosystem) -> Seq<Seq<char>> {
        match eco {
            Ecosystem::Npm => views(self.npm@),
            Ecosystem::PyPi => views(self.pypi@),
            Ecosystem::Crates => views(self.crates@),
            Ecosystem::Go => views(self.none@),
        }
    }

    /// A corpus that knows no names at all.
    pub fn empty() -> (c: Corpus)
        ensures
            forall|e: Ecosystem| #[trigger] c.list(e).len() == 0,
    {
        Corpus { npm: Vec::new(), pypi: Vec::new(), crates: Vec::new(), none: Vec::new() }
    }

    /// The three lists, if each is already normalized and in byte order.
    pub fn new(npm: Vec<String>, pypi: Vec<String>, crates: Vec<String>) -> (c: Option<Corpus>)
        ensures
            c is Some <==> (acceptable(Ecosystem::Npm, views(npm@)) && acceptable(
                Ecosystem::PyPi,
                views(pypi@),
            ) && acceptable(Ecosystem::Crates, views(crates@))),
            c matches Some(c) ==> {
                &&& c.list(Ecosystem::Npm) == views(npm@)
                &&& c.list(Ecosystem::PyPi) == views(pypi@)
                &&& c.list(Ecosystem::Crates) == views(crates@)
                &&& c.list(Ecosystem::Go).len() == 0
            },
    {
        if is_sorted(&npm) && is_sorted(&pypi) && is_sorted(&crates) && is_normal(
            Ecosystem::Npm,
            &npm,
        ) && is_normal(Ecosystem::PyPi, &pypi) && is_normal(Ecosystem::Crates, &crates) {
            Some(Corpus { npm, pypi, crates, none: Vec::new() })
        } else {
            None
        }
    }

    /// The three lists from their text, one name per line.
    pub fn from_text(npm: &str, pypi: &str, crates: &str) -> (c: Option<Corpus>)
        ensures
            c is Some <==> (acceptable(Ecosystem::Npm, text::lines(npm@)) && acceptable(
                Ecosystem::PyPi,
                text::lines(pypi@),
            ) && acceptable(Ecosystem::Crates, text::lines(crates@))),
            c matches Some(c) ==> {
                &&& c.list(Ecosystem::Npm) == text::lines(npm@)
                &&& c.list(Ecosystem::PyPi) == text::lines(pypi@)
                &&& c.list(Ecosystem::Crates) == text::lines(crates@)
                &&& c.list(Ecosystem::Go).len() == 0
            },
    {
        let a = text::lines_of(npm);
        let b = text::lines_of(pypi);
        let c = text::lines_of(crates);
        proof {
            assert(views(a@) =~= a@.map_values(|l: String| l@));
            assert(views(b@) =~= b@.map_values(|l: String| l@));
            assert(views(c@) =~= c@.map_values(|l: String| l@));
        }
        Corpus::new(a, b, c)
    }
}

fn is_normal(eco: Ecosystem, names: &Vec<String>) -> (r: bool)
    ensures
        r == all_normal(eco, views(names@)),
{
    for i in 0..names.len()
        invariant
            forall|x: int| 0 <= x < i ==> normalized(eco, #[trigger] views(names@)[x]) == views(names@)[x],
    {
        let n = normalize(eco, names[i].as_str());
        let a = text::chars_of(n.as_str());
        let b = text::chars_of(names[i].as_str());
        proof {
            assert(views(names@)[i as int] == names@[i as int]@);
        }
        if !text::same_chars(&a, &b) {
            return false;
        }
    }
    true
}

fn is_sorted(names: &Vec<String>) -> (r: bool)
    ensures
        r == sorted(views(names@)),
{
    let n = names.len();
    if n < 2 {
        return true;
    }
    let mut i: usize = 1;
    while i < n
        invariant
            1 <= i <= n,
            n == names@.len(),
            forall|x: int, y: int|
                0 <= x < y < i ==> text::seq_le(views(names@)[x], views(names@)[y]),
        decreases n - i,
    {
        let later = text::chars_of(names[i].as_str());
        let earlier = text::chars_of(names[i - 1].as_str());
        if text::less(&later, &earlier) {
            proof {
                text::lemma_lt_asymmetric(later@, earlier@);
                if later@ == earlier@ {
                    text::lemma_lt_irreflexive(later@);
                }
                assert(!text::seq_le(views(names@)[i - 1], views(names@)[i as int]));
            }
            return false;
        }
        proof {
            text::lemma_lt_total(later@, earlier@);
            assert forall|x: int, y: int| 0 <= x < y < i + 1 implies text::seq_le(
                views(names@)[x],
                views(names@)[y],
            ) by {
                if y == i && x < i - 1 {
                    let v = views(names@);
                    assert(text::seq_le(v[x], v[i - 1]));
                    assert(v[i as int] == later@);
                    assert(v[i - 1] == earlier@);
                    if v[x] != v[i - 1] && v[i - 1] != v[y] {
                        text::lemma_lt_transitive(v[x], v[i - 1], v[y]);
                    }
                }
            }
        }
        i = i + 1;
    }
    true
}

/// The list for one ecosystem. Empty for Go, which has no published list.
pub fn names(corpus: &Corpus, eco: Ecosystem) -> (r: &Vec<String>)
    ensures
        views(r@) == corpus.list(eco),
        sorted(views(r@)),
        all_normal(eco, views(r@)),
        eco == Ecosystem::Go ==> r@.len() == 0,
{
    proof {
        use_type_invariant(corpus);
    }
    match eco {
        Ecosystem::Npm => &corpus.npm,
        Ecosystem::PyPi => &corpus.pypi,
        Ecosystem::Crates => &corpus.crates,
        Ecosystem::Go => &corpus.none,
    }
}

pub open spec fn is_sep(c: char) -> bool {
    c == '-' || c == '_' || c == '.'
}

/// Each run of PEP 503 separators replaced by a single `-`.
pub open spec fn collapse(s: Seq<char>) -> Seq<char>
    decreases s.len(),
{
    if s.len() == 0 {
        s
    } else if is_sep(s.last()) {
        if s.len() > 1 && is_sep(s[s.len() - 2]) {
            collapse(s.drop_last())
        } else {
            collapse(s.drop_last()).push('-')
        }
    } else {
        collapse(s.drop_last()).push(s.last())
    }
}

/// A name in the form the corpus stores: ASCII lower case, and for PyPI
/// every run of `-`, `_` and `.` folded to one `-` (PEP 503).
pub open spec fn normalized(eco: Ecosystem, name: Seq<char>) -> Seq<char> {
    let lower = name.map_values(|c: char| text::lower(c));
    if eco == Ecosystem::PyPi {
        collapse(lower)
    } else {
        lower
    }
}

pub proof fn lemma_collapse_len(s: Seq<char>)
    ensures
        collapse(s).len() <= s.len(),
    decreases s.len(),
{
    if s.len() > 0 {
        lemma_collapse_len(s.drop_last());
    }
}

/// Normalising never makes a name longer.
pub proof fn lemma_normalized_len(eco: Ecosystem, name: Seq<char>)
    ensures
        normalized(eco, name).len() <= name.len(),
{
    lemma_collapse_len(name.map_values(|c: char| text::lower(c)));
}

/// Every character of `t` is already lower case.
pub open spec fn lowered(t: Seq<char>) -> bool {
    forall|i: int| 0 <= i < t.len() ==> text::lower(#[trigger] t[i]) == t[i]
}

/// Every separator in `t` is a `-`, and no two separators are neighbours.
pub open spec fn tidy(t: Seq<char>) -> bool {
    forall|i: int|
        0 <= i < t.len() && is_sep(#[trigger] t[i]) ==> t[i] == '-' && (i + 1 < t.len() ==> !is_sep(
            t[i + 1],
        ))
}

proof fn lemma_lower_char(c: char)
    ensures
        text::lower(text::lower(c)) == text::lower(c),
        is_sep(c) ==> text::lower(c) == c,
        !is_sep(c) ==> !is_sep(text::lower(c)),
{
}

proof fn lemma_map_lower(t: Seq<char>)
    ensures
        lowered(t.map_values(|c: char| text::lower(c))),
        lowered(t) ==> t.map_values(|c: char| text::lower(c)) == t,
{
    let m = t.map_values(|c: char| text::lower(c));
    assert forall|i: int| 0 <= i < m.len() implies text::lower(#[trigger] m[i]) == m[i] by {
        lemma_lower_char(t[i]);
    }
    if lowered(t) {
        assert(m =~= t);
    }
}

proof fn lemma_collapse_last(s: Seq<char>)
    requires
        s.len() > 0,
        !is_sep(s.last()),
    ensures
        collapse(s).len() > 0,
        collapse(s).last() == s.last(),
{
}

proof fn lemma_collapse_shape(s: Seq<char>)
    ensures
        tidy(collapse(s)),
        lowered(s) ==> lowered(collapse(s)),
    decreases s.len(),
{
    if s.len() > 0 {
        let r = s.drop_last();
        lemma_collapse_shape(r);
        let c = collapse(r);
        if lowered(s) {
            assert forall|i: int| 0 <= i < r.len() implies text::lower(#[trigger] r[i]) == r[i] by {
                assert(r[i] == s[i]);
            }
        }
        if is_sep(s.last()) {
            if !(s.len() > 1 && is_sep(s[s.len() - 2])) {
                if s.len() > 1 {
                    assert(r.last() == s[s.len() - 2]);
                    lemma_collapse_last(r);
                }
                let out = c.push('-');
                assert forall|i: int| 0 <= i < out.len() && is_sep(#[trigger] out[i]) implies out[i] == '-'
                    && (i + 1 < out.len() ==> !is_sep(out[i + 1])) by {
                    if i < c.len() {
                        assert(out[i] == c[i]);
                        if i + 1 < c.len() {
                            assert(out[i + 1] == c[i + 1]);
                        }
                    }
                }
                if lowered(s) {
                    assert forall|i: int| 0 <= i < out.len() implies text::lower(#[trigger] out[i]) == out[i] by {
                        if i < c.len() {
                            assert(out[i] == c[i]);
                        }
                    }
                }
            }
        } else {
            let out = c.push(s.last());
            assert forall|i: int| 0 <= i < out.len() && is_sep(#[trigger] out[i]) implies out[i] == '-'
                && (i + 1 < out.len() ==> !is_sep(out[i + 1])) by {
                if i < c.len() {
                    assert(out[i] == c[i]);
                    if i + 1 < c.len() {
                        assert(out[i + 1] == c[i + 1]);
                    }
                }
            }
            if lowered(s) {
                assert forall|i: int| 0 <= i < out.len() implies text::lower(#[trigger] out[i]) == out[i] by {
                    if i < c.len() {
                        assert(out[i] == c[i]);
                    }
                }
            }
        }
    }
}

proof fn lemma_collapse_tidy(t: Seq<char>)
    requires
        tidy(t),
    ensures
        collapse(t) == t,
    decreases t.len(),
{
    if t.len() > 0 {
        let r = t.drop_last();
        assert forall|i: int| 0 <= i < r.len() && is_sep(#[trigger] r[i]) implies r[i] == '-' && (i + 1
            < r.len() ==> !is_sep(r[i + 1])) by {
            assert(r[i] == t[i]);
            if i + 1 < r.len() {
                assert(r[i + 1] == t[i + 1]);
            }
        }
        lemma_collapse_tidy(r);
        if is_sep(t.last()) && t.len() > 1 {
            assert(is_sep(t[t.len() - 1]));
            if is_sep(t[t.len() - 2]) {
                assert(!is_sep(t[t.len() - 2 + 1]));
            }
        }
        assert(t =~= r.push(t.last()));
    }
}

/// Normalising a normalized name changes nothing.
pub proof fn lemma_normalized_twice(eco: Ecosystem, name: Seq<char>)
    ensures
        normalized(eco, normalized(eco, name)) == normalized(eco, name),
{
    let l = name.map_values(|c: char| text::lower(c));
    lemma_map_lower(name);
    lemma_map_lower(l);
    if eco == Ecosystem::PyPi {
        let m = collapse(l);
        lemma_collapse_shape(l);
        lemma_map_lower(m);
        lemma_collapse_tidy(m);
    }
}

/// PyPI treats `Foo.Bar`, `foo-bar` and `foo_bar` as one project (PEP 503).
/// npm names are already lower case by registry rule, and crates.io keeps
/// `_` and `-` distinct, so those two are only lower-cased.
pub fn normalize(eco: Ecosystem, name: &str) -> (r: String)
    ensures
        r@ == normalized(eco, name@),
{
    let chars = text::chars_of(name);
    let lower = text::lowercase(&chars);
    if eco != Ecosystem::PyPi {
        return text::string_of(&lower);
    }
    let mut out: Vec<char> = Vec::new();
    let mut last_was_sep = false;
    for i in 0..lower.len()
        invariant
            out@ == collapse(lower@.take(i as int)),
            i > 0 ==> last_was_sep == is_sep(lower@[i - 1]),
            i == 0 ==> !last_was_sep,
    {
        let c = lower[i];
        let sep = c == '-' || c == '_' || c == '.';
        proof {
            let t = lower@.take(i + 1);
            assert(t.drop_last() =~= lower@.take(i as int));
            assert(t.last() == c);
            if i > 0 {
                assert(t[t.len() - 2] == lower@[i - 1]);
            }
        }
        if sep {
            if !last_was_sep {
                out.push('-');
            }
        } else {
            out.push(c);
        }
        last_was_sep = sep;
    }
    proof {
        assert(lower@.take(lower@.len() as int) =~= lower@);
    }
    text::string_of(&out)
}

/// `contains_in` against one ecosystem's list.
pub fn contains(corpus: &Corpus, eco: Ecosystem, name: &str) -> (r: bool)
    ensures
        r == corpus.list(eco).contains(normalized(eco, name@)),
{
    let list = names(corpus, eco);
    contains_in(list.as_slice(), eco, name)
}

/// Membership against an explicit list, by binary search. The answer is exact
/// when the list is in byte order.
pub fn contains_in(names: &[String], eco: Ecosystem, name: &str) -> (r: bool)
    ensures
        sorted(views(names@)) ==> r == views(names@).contains(normalized(eco, name@)),
{
    let key = normalize(eco, name);
    let want = text::chars_of(key.as_str());
    let ghost v = views(names@);
    let mut lo: usize = 0;
    let mut hi: usize = names.len();
    while lo < hi
        invariant
            lo <= hi <= names@.len(),
            v == views(names@),
            want@ == normalized(eco, name@),
            sorted(v) ==> forall|x: int| 0 <= x < lo ==> text::seq_lt(#[trigger] v[x], want@),
            sorted(v) ==> forall|x: int| hi <= x < v.len() ==> text::seq_lt(want@, #[trigger] v[x]),
        decreases hi - lo,
    {
        let mid = lo + (hi - lo) / 2;
        let here = text::chars_of(names[mid].as_str());
        proof {
            assert(here@ == v[mid as int]);
        }
        if text::less(&here, &want) {
            proof {
                if sorted(v) {
                    assert forall|x: int| 0 <= x < mid + 1 implies text::seq_lt(
                        #[trigger] v[x],
                        want@,
                    ) by {
                        if x < mid {
                            assert(text::seq_le(v[x], v[mid as int]));
                            if v[x] != v[mid as int] {
                                text::lemma_lt_transitive(v[x], v[mid as int], want@);
                            }
                        }
                    }
                }
            }
            lo = mid + 1;
        } else if text::less(&want, &here) {
            proof {
                if sorted(v) {
                    assert forall|x: int| mid <= x < v.len() implies text::seq_lt(
                        want@,
                        #[trigger] v[x],
                    ) by {
                        if x > mid {
                            assert(text::seq_le(v[mid as int], v[x]));
                            if v[mid as int] != v[x] {
                                text::lemma_lt_transitive(want@, v[mid as int], v[x]);
                            }
                        }
                    }
                }
            }
            hi = mid;
        } else {
            proof {
                text::lemma_lt_total(here@, want@);
                assert(v[mid as int] == want@);
            }
            return true;
        }
    }
    proof {
        if sorted(v) && v.contains(want@) {
            let x = choose|x: int| 0 <= x < v.len() && v[x] == want@;
            text::lemma_lt_irreflexive(want@);
        }
    }
    false
}

/// Bytes of the UTF-8 encoding, which is what `str::len` counts.
pub open spec fn byte_len(s: Seq<char>) -> nat {
    text::utf8_len(s)
}

/// The order a nearest-neighbour search prefers: fewer edits, then the
/// shorter name, then byte order.
pub open spec fn better(d1: int, a: Seq<char>, d2: int, b: Seq<char>) -> bool {
    d1 < d2 || (d1 == d2 && (byte_len(a) < byte_len(b) || (byte_len(a) == byte_len(b)
        && text::seq_lt(a, b))))
}

/// What `nearest` answers about `name` against the names in `pool`.
pub open spec fn nearest_spec(
    pool: Seq<Seq<char>>,
    eco: Ecosystem,
    name: Seq<char>,
    r: Option<(Seq<char>, int)>,
) -> bool {
    let q = normalized(eco, name);
    let k = distance::spec_budget_for(q.len() as int);
    match r {
        None => k == 0 || forall|x: Seq<char>| #[trigger]
            pool.contains(x) ==> distance::distance(q, x) > k,
        Some((c, d)) => {
            &&& k > 0
            &&& pool.contains(c)
            &&& d == distance::distance(q, c)
            &&& d <= k
            &&& forall|x: Seq<char>| #[trigger]
                pool.contains(x) && distance::distance(q, x) <= k ==> !better(
                    distance::distance(q, x),
                    x,
                    d,
                    c,
                )
        },
    }
}

/// The closest real name in `names` to `name`, if any is close enough.
pub fn nearest_in(names: &[String], eco: Ecosystem, name: &str) -> (r: Option<(String, usize)>)
    requires
        name@.len() <= usize::MAX / 8,
    ensures
        nearest_spec(
            views(names@),
            eco,
            name@,
            match r {
                Some((c, d)) => Some((c@, d as int)),
                None => None,
            },
        ),
{
    let index = ByLength::new(names);
    index.nearest(eco, name)
}

/// The corpus, grouped by name length in characters.
///
/// A name at edit distance `k` cannot differ in length by more than `k`, so a
/// sweep only ever has to look at the `2k + 1` buckets around the query.
pub struct ByLength {
    buckets: Vec<Vec<String>>,
    all: Ghost<Seq<Seq<char>>>,
}

impl ByLength {
    #[verifier::type_invariant]
    spec fn inv(self) -> bool {
        &&& self.buckets@.len() >= 1
        &&& forall|c: int, t: int|
            0 <= c < self.buckets@.len() && 0 <= t < self.buckets@[c]@.len() ==> {
                &&& (#[trigger] self.buckets@[c]@[t])@.len() == c
                &&& self.all@.contains(self.buckets@[c]@[t]@)
            }
        &&& forall|x: Seq<char>| #[trigger]
            self.all@.contains(x) ==> x.len() < self.buckets@.len() && exists|t: int|
                0 <= t < self.buckets@[x.len() as int]@.len() && (
                #[trigger] self.buckets@[x.len() as int]@[t])@ == x
    }

    /// Every name the index was built from.
    pub closed spec fn pool(self) -> Seq<Seq<char>> {
        self.all@
    }

    pub fn new(names: &[String]) -> (b: ByLength)
        ensures
            b.pool() == views(names@),
    {
        let ghost v = views(names@);
        let mut longest: usize = 0;
        let mut lens: Vec<usize> = Vec::new();
        for i in 0..names.len()
            invariant
                lens@.len() == i,
                forall|x: int| 0 <= x < i ==> #[trigger] lens@[x] == names@[x]@.len(),
                forall|x: int| 0 <= x < i ==> lens@[x] <= longest,
        {
            let n = text::chars_of(names[i].as_str()).len();
            lens.push(n);
            if n > longest {
                longest = n;
            }
        }
        // One bucket per length, 0 through the longest.
        let mut buckets: Vec<Vec<String>> = Vec::new();
        buckets.push(Vec::new());
        for c in 0..longest
            invariant
                buckets@.len() == c + 1,
                forall|x: int| 0 <= x < c + 1 ==> (#[trigger] buckets@[x])@.len() == 0,
        {
            buckets.push(Vec::new());
        }
        let ghost mut pos: Seq<int> = Seq::empty();
        for i in 0..names.len()
            invariant
                v == views(names@),
                lens@.len() == names@.len(),
                forall|x: int| 0 <= x < names@.len() ==> #[trigger] lens@[x] == names@[x]@.len(),
                forall|x: int| 0 <= x < names@.len() ==> lens@[x] <= longest,
                buckets@.len() == longest + 1,
                forall|c: int, t: int|
                    0 <= c < buckets@.len() && 0 <= t < buckets@[c]@.len() ==> {
                        &&& (#[trigger] buckets@[c]@[t])@.len() == c
                        &&& v.contains(buckets@[c]@[t]@)
                    },
                pos.len() == i,
                forall|x: int|
                    0 <= x < i ==> 0 <= #[trigger] pos[x] < buckets@[lens@[x] as int]@.len() && (
                    buckets@[lens@[x] as int]@[pos[x]])@ == names@[x]@,
        {
            let n = lens[i];
            let ghost before = buckets@;
            buckets[n].push(names[i].clone());
            proof {
                assert(v[i as int] == names@[i as int]@);
                pos = pos.push(before[n as int]@.len() as int);
                assert forall|x: int| 0 <= x < i + 1 implies 0 <= #[trigger] pos[x]
                    < buckets@[lens@[x] as int]@.len() && (buckets@[lens@[x] as int]@[pos[x]])@
                    == names@[x]@ by {
                    if x < i {
                        assert(buckets@[lens@[x] as int]@[pos[x]] == before[lens@[x] as int]@[pos[x]]);
                    }
                }
                assert forall|c: int, t: int|
                    0 <= c < buckets@.len() && 0 <= t < buckets@[c]@.len() implies {
                        &&& (#[trigger] buckets@[c]@[t])@.len() == c
                        &&& v.contains(buckets@[c]@[t]@)
                    } by {
                    if c == n as int && t == before[c]@.len() {
                        assert(v[i as int] == buckets@[c]@[t]@);
                    } else {
                        assert(buckets@[c]@[t] == before[c]@[t]);
                    }
                }
            }
        }
        proof {
            assert forall|x: Seq<char>| #[trigger] v.contains(x) implies x.len()
                < buckets@.len() && exists|t: int|
                0 <= t < buckets@[x.len() as int]@.len() && (
                #[trigger] buckets@[x.len() as int]@[t])@ == x by {
                let y = choose|y: int| 0 <= y < v.len() && v[y] == x;
                assert(names@[y]@ == x);
                assert(lens@[y] == x.len());
                let t = pos[y];
                assert(buckets@[x.len() as int]@[t]@ == x);
            }
        }
        ByLength { buckets, all: Ghost(v) }
    }

    /// The closest name in the index to `name`, within the edit budget the
    /// normalised name's length earns. Ties go to the shorter name, then to
    /// the byte-order-first.
    pub fn nearest(&self, eco: Ecosystem, name: &str) -> (r: Option<(String, usize)>)
        requires
            name@.len() <= usize::MAX / 8,
        ensures
            nearest_spec(
                self.pool(),
                eco,
                name@,
                match r {
                    Some((c, d)) => Some((c@, d as int)),
                    None => None,
                },
            ),
    {
        proof {
            use_type_invariant(self);
        }
        let folded = normalize(eco, name);
        proof {
            lemma_normalized_len(eco, name@);
        }
        let query = distance::Query::new(folded.as_str());
        let ghost q = folded@;
        let k = query.budget();
        if k == 0 {
            return None;
        }
        let len = query.char_len();
        let lo = len.saturating_sub(k);
        let last = self.buckets.len() - 1;
        let hi = if len + k < last {
            len + k
        } else {
            last
        };
        if lo > hi {
            proof {
                assert forall|x: Seq<char>| #[trigger]
                    self.pool().contains(x) implies distance::distance(q, x) > k by {
                    distance::lemma_dl_bounds(q, x, q.len() as int, x.len() as int);
                }
            }
            return None;
        }
        let mut best: Option<(usize, usize, usize)> = None;
        let mut b = lo;
        while b <= hi
            invariant
                lo <= b <= hi + 1,
                hi < self.buckets@.len(),
                query.name() == q,
                q == normalized(eco, name@),
                q.len() <= usize::MAX / 8,
                k == query.spec_budget(),
                k == distance::spec_budget_for(q.len() as int),
                k <= 2,
                lo == (if len >= k { len - k } else { 0 }),
                len == q.len(),
                hi <= len + k,
                self.inv(),
                match best {
                    None => forall|c: int, t: int|
                        lo <= c < b && 0 <= t < self.buckets@[c]@.len() ==> distance::distance(
                            q,
                            (#[trigger] self.buckets@[c]@[t])@,
                        ) > k,
                    Some((bb, bt, bd)) => {
                        &&& lo <= bb < b
                        &&& bt < self.buckets@[bb as int]@.len()
                        &&& bd == distance::distance(q, self.buckets@[bb as int]@[bt as int]@)
                        &&& bd <= k
                        &&& forall|c: int, t: int|
                            lo <= c < b && 0 <= t < self.buckets@[c]@.len() && distance::distance(
                                q,
                                (#[trigger] self.buckets@[c]@[t])@,
                            ) <= k ==> !better(
                                distance::distance(q, self.buckets@[c]@[t]@),
                                self.buckets@[c]@[t]@,
                                bd as int,
                                self.buckets@[bb as int]@[bt as int]@,
                            )
                    },
                },
            decreases hi + 1 - b,
        {
            let bucket = &self.buckets[b];
            let mut t: usize = 0;
            while t < bucket.len()
                invariant
                    lo <= b <= hi,
                    hi < self.buckets@.len(),
                    bucket@ == self.buckets@[b as int]@,
                    t <= bucket@.len(),
                    query.name() == q,
                    q.len() <= usize::MAX / 8,
                    k == query.spec_budget(),
                    k <= 2,
                    hi <= len + k,
                    len == q.len(),
                    self.inv(),
                    match best {
                        None => forall|c: int, u: int|
                            ((lo <= c < b && 0 <= u < self.buckets@[c]@.len()) || (c == b && 0
                                <= u < t)) ==> distance::distance(
                                q,
                                (#[trigger] self.buckets@[c]@[u])@,
                            ) > k,
                        Some((bb, bt, bd)) => {
                            &&& lo <= bb <= b
                            &&& bt < self.buckets@[bb as int]@.len()
                            &&& bb == b ==> bt < t
                            &&& bd == distance::distance(q, self.buckets@[bb as int]@[bt as int]@)
                            &&& bd <= k
                            &&& forall|c: int, u: int|
                                ((lo <= c < b && 0 <= u < self.buckets@[c]@.len()) || (c == b
                                    && 0 <= u < t)) && distance::distance(
                                    q,
                                    (#[trigger] self.buckets@[c]@[u])@,
                                ) <= k ==> !better(
                                    distance::distance(q, self.buckets@[c]@[u]@),
                                    self.buckets@[c]@[u]@,
                                    bd as int,
                                    self.buckets@[bb as int]@[bt as int]@,
                                )
                        },
                    },
                decreases bucket@.len() - t,
            {
                let candidate = &bucket[t];
                proof {
                    assert(candidate@.len() == b);
                }
                proof {
                    assert(candidate@ == self.buckets@[b as int]@[t as int]@);
                }
                match query.distance_to(candidate.as_str()) {
                    None => {
                        proof {
                            assert(distance::distance(q, self.buckets@[b as int]@[t as int]@) > k);
                        }
                    },
                    Some(d) => {
                        let ghost old_best = best;
                        let replace = match best {
                            None => true,
                            Some((bb, bt, bd)) => {
                                let incumbent = &self.buckets[bb][bt];
                                if d != bd {
                                    d < bd
                                } else {
                                    let cc = text::chars_of(candidate.as_str());
                                    let ic = text::chars_of(incumbent.as_str());
                                    proof {
                                        assert(ic@.len() == bb);
                                        assert(cc@.len() == b);
                                    }
                                    let cl = text::utf8_len_of(&cc);
                                    let il = text::utf8_len_of(&ic);
                                    if cl != il {
                                        cl < il
                                    } else {
                                        text::less_str(candidate.as_str(), incumbent.as_str())
                                    }
                                }
                            },
                        };
                        proof {
                            if let Some((bb, bt, bd)) = old_best {
                                let inc = self.buckets@[bb as int]@[bt as int]@;
                                assert(replace == better(d as int, candidate@, bd as int, inc));
                            }
                        }
                        if replace {
                            best = Some((b, t, d));
                            proof {
                                lemma_better_irreflexive(d as int, candidate@);
                                assert forall|c: int, u: int|
                                    ((lo <= c < b && 0 <= u < self.buckets@[c]@.len()) || (c == b
                                        && 0 <= u < t + 1)) && distance::distance(
                                        q,
                                        (#[trigger] self.buckets@[c]@[u])@,
                                    ) <= k implies !better(
                                    distance::distance(q, self.buckets@[c]@[u]@),
                                    self.buckets@[c]@[u]@,
                                    d as int,
                                    candidate@,
                                ) by {
                                    let x = self.buckets@[c]@[u]@;
                                    let dx = distance::distance(q, x);
                                    if c == b && u == t {
                                        assert(x == candidate@);
                                    } else if let Some((bb, bt, bd)) = old_best {
                                        let inc = self.buckets@[bb as int]@[bt as int]@;
                                        assert(!better(dx, x, bd as int, inc));
                                        assert(better(d as int, candidate@, bd as int, inc));
                                        if better(dx, x, d as int, candidate@) {
                                            lemma_better_transitive(
                                                dx,
                                                x,
                                                d as int,
                                                candidate@,
                                                bd as int,
                                                inc,
                                            );
                                        }
                                    } else {
                                        assert(dx > k);
                                    }
                                }
                            }
                        } else {
                            proof {
                                if let Some((bb, bt, bd)) = old_best {
                                    let inc = self.buckets@[bb as int]@[bt as int]@;
                                    assert(!better(d as int, candidate@, bd as int, inc));
                                }
                            }
                        }
                    },
                }
                t = t + 1;
            }
            b = b + 1;
        }
        proof {
            assert forall|x: Seq<char>| #[trigger] self.pool().contains(x) && distance::distance(
                q,
                x,
            ) <= k implies x.len() >= lo && x.len() <= hi && exists|t: int|
                0 <= t < self.buckets@[x.len() as int]@.len() && (
                #[trigger] self.buckets@[x.len() as int]@[t])@ == x by {
                distance::lemma_dl_bounds(q, x, q.len() as int, x.len() as int);
            }
        }
        match best {
            None => None,
            Some((bb, bt, bd)) => Some((self.buckets[bb][bt].clone(), bd)),
        }
    }
}

pub proof fn lemma_better_irreflexive(d: int, a: Seq<char>)
    ensures
        !better(d, a, d, a),
{
    text::lemma_lt_irreflexive(a);
}

pub proof fn lemma_better_asymmetric(d1: int, a: Seq<char>, d2: int, b: Seq<char>)
    ensures
        better(d1, a, d2, b) ==> !better(d2, b, d1, a),
{
    text::lemma_lt_asymmetric(a, b);
}

pub proof fn lemma_better_transitive(
    d1: int,
    a: Seq<char>,
    d2: int,
    b: Seq<char>,
    d3: int,
    c: Seq<char>,
)
    requires
        better(d1, a, d2, b),
        better(d2, b, d3, c),
    ensures
        better(d1, a, d3, c),
{
    if d1 == d2 && d2 == d3 && byte_len(a) == byte_len(b) && byte_len(b) == byte_len(c) {
        text::lemma_lt_transitive(a, b, c);
    }
}

/// Of two different candidates, one is always the better.
pub proof fn lemma_better_total(d1: int, a: Seq<char>, d2: int, b: Seq<char>)
    ensures
        better(d1, a, d2, b) || better(d2, b, d1, a) || (d1 == d2 && a == b),
{
    text::lemma_lt_total(a, b);
}

/// The nearest name is a single answer: two results that both meet
/// `nearest_spec` for one query are the same result.
pub proof fn lemma_nearest_unique(
    pool: Seq<Seq<char>>,
    eco: Ecosystem,
    name: Seq<char>,
    r1: Option<(Seq<char>, int)>,
    r2: Option<(Seq<char>, int)>,
)
    requires
        nearest_spec(pool, eco, name, r1),
        nearest_spec(pool, eco, name, r2),
    ensures
        r1 == r2,
{
    let q = normalized(eco, name);
    match (r1, r2) {
        (Some((c1, d1)), Some((c2, d2))) => {
            assert(pool.contains(c2) && distance::distance(q, c2) <= distance::spec_budget_for(
                q.len() as int,
            ));
            assert(!better(d2, c2, d1, c1));
            assert(pool.contains(c1));
            assert(!better(d1, c1, d2, c2));
            lemma_better_total(d1, c1, d2, c2);
        },
        (Some((c1, d1)), None) => {
            assert(pool.contains(c1));
        },
        (None, Some((c2, d2))) => {
            assert(pool.contains(c2));
        },
        (None, None) => {},
    }
}

} // verus!
