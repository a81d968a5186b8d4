//! Damerau-Levenshtein edit distance.
//!
//! This is the *unrestricted* variant (Lowrance-Wagner), not the optimal
//! string alignment version that most crates ship under the same name. The
//! difference shows up when transposed characters have edits between them:
//! OSA scores `CA` against `ABC` as 3 because it refuses to edit a substring
//! it has already transposed, and the true distance is 2.
//!
//! The distance is defined below as the Lowrance-Wagner recurrence over the
//! two character sequences (`dl`), and every executable function here is
//! proved to compute exactly that number, including the early exit on a row
//! minimum and the length prefilter.
use crate::text;
use vstd::prelude::*;

verus! {

/// The ceiling on how far apart two names can be and still be typos of each
/// other. What a *particular* name is allowed is [`budget_for`], which is this
/// or less.
pub const MAX_EDIT_DISTANCE: usize = 2;

/// How much name it takes to buy one edit of slack: one edit per five
/// characters, twice.
pub const CHARS_PER_EDIT: usize = 5;

/// The edit budget a name of `len` characters earns.
pub open spec fn spec_budget_for(len: int) -> int {
    if len / 5 < 2 {
        len / 5
    } else {
        2
    }
}

pub open spec fn min2(x: int, y: int) -> int {
    if x <= y {
        x
    } else {
        y
    }
}

/// The largest `p` in `1..=upto` with `s[p - 1] == c`, or 0 when there is none.
pub open spec fn last_before(s: Seq<char>, upto: int, c: char) -> int
    decreases upto,
{
    if upto <= 0 {
        0
    } else if s[upto - 1] == c {
        upto
    } else {
        last_before(s, upto - 1, c)
    }
}

/// The unrestricted Damerau-Levenshtein distance between `a[..i]` and `b[..j]`:
/// the Lowrance-Wagner recurrence. Substitution, insertion, deletion, and a
/// transposition reaching back to the last row holding `b[j - 1]` and the last
/// column holding `a[i - 1]`, paying for everything between.
pub open spec fn dl(a: Seq<char>, b: Seq<char>, i: int, j: int) -> int
    decreases i + j,
{
    if i <= 0 {
        if j <= 0 {
            0
        } else {
            j
        }
    } else if j <= 0 {
        i
    } else {
        let cost: int = if a[i - 1] == b[j - 1] {
            0
        } else {
            1
        };
        let sub = dl(a, b, i - 1, j - 1) + cost;
        let ins = dl(a, b, i, j - 1) + 1;
        let del = dl(a, b, i - 1, j) + 1;
        let best = min2(min2(sub, ins), del);
        let k = last_before(a, i - 1, b[j - 1]);
        let l = last_before(b, j - 1, a[i - 1]);
        if 0 < k && k <= i - 1 && 0 < l && l <= j - 1 {
            min2(best, dl(a, b, k - 1, l - 1) + (i - k - 1) + 1 + (j - l - 1))
        } else {
            best
        }
    }
}

/// The distance between two whole character sequences.
pub open spec fn distance(a: Seq<char>, b: Seq<char>) -> int {
    dl(a, b, a.len() as int, b.len() as int)
}

/// The smallest `dl(a, b, i, c)` over the columns `1..=upto`.
pub open spec fn row_min(a: Seq<char>, b: Seq<char>, i: int, upto: int) -> int
    decreases upto,
{
    if upto <= 1 {
        dl(a, b, i, 1)
    } else {
        min2(row_min(a, b, i, upto - 1), dl(a, b, i, upto))
    }
}

proof fn lemma_last_before(s: Seq<char>, upto: int, c: char)
    requires
        0 <= upto <= s.len(),
    ensures
        0 <= last_before(s, upto, c) <= upto,
        last_before(s, upto, c) > 0 ==> s[last_before(s, upto, c) - 1] == c,
    decreases upto,
{
    if upto > 0 {
        lemma_last_before(s, upto - 1, c);
    }
}

/// Every cell lies between the length difference and the length sum.
pub proof fn lemma_dl_bounds(a: Seq<char>, b: Seq<char>, i: int, j: int)
    requires
        0 <= i <= a.len(),
        0 <= j <= b.len(),
    ensures
        dl(a, b, i, j) <= i + j,
        dl(a, b, i, j) >= i - j,
        dl(a, b, i, j) >= j - i,
    decreases i + j,
{
    if i > 0 && j > 0 {
        lemma_dl_bounds(a, b, i - 1, j - 1);
        lemma_dl_bounds(a, b, i, j - 1);
        lemma_dl_bounds(a, b, i - 1, j);
        let k = last_before(a, i - 1, b[j - 1]);
        let l = last_before(b, j - 1, a[i - 1]);
        lemma_last_before(a, i - 1, b[j - 1]);
        lemma_last_before(b, j - 1, a[i - 1]);
        if 0 < k && k <= i - 1 && 0 < l && l <= j - 1 {
            lemma_dl_bounds(a, b, k - 1, l - 1);
        }
    }
}

/// Comparing the other way round gives the same distance, cell by cell.
pub proof fn lemma_dl_symmetric(a: Seq<char>, b: Seq<char>, i: int, j: int)
    requires
        0 <= i <= a.len(),
        0 <= j <= b.len(),
    ensures
        dl(a, b, i, j) == dl(b, a, j, i),
    decreases i + j,
{
    if i > 0 && j > 0 {
        lemma_dl_symmetric(a, b, i - 1, j - 1);
        lemma_dl_symmetric(a, b, i, j - 1);
        lemma_dl_symmetric(a, b, i - 1, j);
        let k = last_before(a, i - 1, b[j - 1]);
        let l = last_before(b, j - 1, a[i - 1]);
        lemma_last_before(a, i - 1, b[j - 1]);
        lemma_last_before(b, j - 1, a[i - 1]);
        if 0 < k && k <= i - 1 && 0 < l && l <= j - 1 {
            lemma_dl_symmetric(a, b, k - 1, l - 1);
        }
    }
}

/// No cell costs more than its longer side.
pub proof fn lemma_dl_at_most_longer(a: Seq<char>, b: Seq<char>, i: int, j: int)
    requires
        0 <= i <= a.len(),
        0 <= j <= b.len(),
    ensures
        dl(a, b, i, j) <= if i >= j {
            i
        } else {
            j
        },
    decreases i + j,
{
    if i > 0 && j > 0 {
        lemma_dl_at_most_longer(a, b, i - 1, j - 1);
    }
}

/// A cell is zero exactly when its two prefixes are equal.
pub proof fn lemma_dl_zero(a: Seq<char>, b: Seq<char>, i: int, j: int)
    requires
        0 <= i <= a.len(),
        0 <= j <= b.len(),
    ensures
        dl(a, b, i, j) == 0 <==> (i == j && a.take(i) == b.take(j)),
    decreases i + j,
{
    lemma_dl_bounds(a, b, i, j);
    if i > 0 && j > 0 {
        lemma_dl_zero(a, b, i - 1, j - 1);
        lemma_dl_bounds(a, b, i - 1, j - 1);
        lemma_dl_bounds(a, b, i, j - 1);
        lemma_dl_bounds(a, b, i - 1, j);
        let k = last_before(a, i - 1, b[j - 1]);
        let l = last_before(b, j - 1, a[i - 1]);
        lemma_last_before(a, i - 1, b[j - 1]);
        lemma_last_before(b, j - 1, a[i - 1]);
        if 0 < k && k <= i - 1 && 0 < l && l <= j - 1 {
            lemma_dl_bounds(a, b, k - 1, l - 1);
        }
        assert(a.take(i - 1) =~= a.take(i).take(i - 1));
        assert(b.take(j - 1) =~= b.take(j).take(j - 1));
        if i == j && a.take(i) == b.take(j) {
            assert(a[i - 1] == a.take(i)[i - 1]);
            assert(b[j - 1] == b.take(j)[j - 1]);
        }
        if dl(a, b, i - 1, j - 1) == 0 && a[i - 1] == b[j - 1] {
            assert(a.take(i) =~= a.take(i - 1).push(a[i - 1]));
            assert(b.take(j) =~= b.take(j - 1).push(b[j - 1]));
        }
    } else if i == 0 && j == 0 {
        assert(a.take(0) =~= b.take(0));
    }
}

/// The distance is a measure of difference: zero exactly for equal names,
/// the same either way round, and between the length gap and the longer
/// length.
pub proof fn lemma_distance_laws(a: Seq<char>, b: Seq<char>)
    ensures
        distance(a, b) == 0 <==> a == b,
        distance(a, b) == distance(b, a),
        distance(a, b) >= a.len() - b.len(),
        distance(a, b) >= b.len() - a.len(),
        distance(a, b) <= if a.len() >= b.len() {
            a.len() as int
        } else {
            b.len() as int
        },
{
    lemma_dl_zero(a, b, a.len() as int, b.len() as int);
    lemma_dl_symmetric(a, b, a.len() as int, b.len() as int);
    lemma_dl_bounds(a, b, a.len() as int, b.len() as int);
    lemma_dl_at_most_longer(a, b, a.len() as int, b.len() as int);
    assert(a.take(a.len() as int) =~= a);
    assert(b.take(b.len() as int) =~= b);
}

/// One more character of `a` costs at most one more edit.
proof fn lemma_dl_step_row(a: Seq<char>, b: Seq<char>, i: int, j: int)
    requires
        1 <= i <= a.len(),
        0 <= j <= b.len(),
    ensures
        dl(a, b, i, j) <= dl(a, b, i - 1, j) + 1,
{
}

proof fn lemma_row_min_le(a: Seq<char>, b: Seq<char>, i: int, upto: int, c: int)
    requires
        1 <= c <= upto,
    ensures
        row_min(a, b, i, upto) <= dl(a, b, i, c),
    decreases upto,
{
    if upto > 1 && c < upto {
        lemma_row_min_le(a, b, i, upto - 1, c);
    }
}

proof fn lemma_row_min_witness(a: Seq<char>, b: Seq<char>, i: int, upto: int) -> (c: int)
    requires
        1 <= upto,
    ensures
        1 <= c <= upto,
        row_min(a, b, i, upto) == dl(a, b, i, c),
    decreases upto,
{
    if upto <= 1 {
        1
    } else {
        let c0 = lemma_row_min_witness(a, b, i, upto - 1);
        if row_min(a, b, i, upto - 1) <= dl(a, b, i, upto) {
            c0
        } else {
            upto
        }
    }
}

/// The first column of any row is at most the row number.
proof fn lemma_row_min_le_row(a: Seq<char>, b: Seq<char>, i: int)
    requires
        1 <= i <= a.len(),
        1 <= b.len(),
    ensures
        row_min(a, b, i, b.len() as int) <= i,
{
    lemma_row_min_le(a, b, i, b.len() as int, 1);
    assert(dl(a, b, i - 1, 0) == i - 1);
    assert(dl(a, b, i, 1) <= dl(a, b, i - 1, 0) + 1);
}

/// The row minimum rises by at most one per row.
proof fn lemma_row_min_growth(a: Seq<char>, b: Seq<char>, q: int, r: int)
    requires
        1 <= q <= r <= a.len(),
        1 <= b.len(),
    ensures
        row_min(a, b, r, b.len() as int) <= row_min(a, b, q, b.len() as int) + (r - q),
    decreases r - q,
{
    let m = b.len() as int;
    if q < r {
        lemma_row_min_growth(a, b, q, r - 1);
        let c = lemma_row_min_witness(a, b, r - 1, m);
        lemma_dl_step_row(a, b, r, c);
        lemma_row_min_le(a, b, r, m, c);
    }
}

/// Every cell in the row below `i` is at least the minimum of row `i`.
proof fn lemma_next_row_ge(a: Seq<char>, b: Seq<char>, i: int, j: int)
    requires
        1 <= i < a.len(),
        1 <= j <= b.len(),
    ensures
        dl(a, b, i + 1, j) >= row_min(a, b, i, b.len() as int),
    decreases j,
{
    let m = b.len() as int;
    let rm = row_min(a, b, i, m);
    lemma_row_min_le_row(a, b, i);
    let cost: int = if a[i] == b[j - 1] {
        0
    } else {
        1
    };
    // substitution
    if j - 1 >= 1 {
        lemma_row_min_le(a, b, i, m, j - 1);
    } else {
        assert(dl(a, b, i, j - 1) == i);
    }
    assert(dl(a, b, i, j - 1) + cost >= rm);
    // deletion
    lemma_row_min_le(a, b, i, m, j);
    assert(dl(a, b, i, j) + 1 >= rm);
    // insertion
    if j - 1 >= 1 {
        lemma_next_row_ge(a, b, i, j - 1);
    } else {
        assert(dl(a, b, i + 1, j - 1) == i + 1);
    }
    assert(dl(a, b, i + 1, j - 1) + 1 >= rm);
    // transposition
    let k = last_before(a, i, b[j - 1]);
    let l = last_before(b, j - 1, a[i]);
    lemma_last_before(a, i, b[j - 1]);
    lemma_last_before(b, j - 1, a[i]);
    if 0 < k && k <= i && 0 < l && l <= j - 1 {
        lemma_dl_bounds(a, b, k - 1, l - 1);
        if k - 1 >= 1 && l - 1 >= 1 {
            lemma_row_min_le(a, b, k - 1, m, l - 1);
            lemma_row_min_growth(a, b, k - 1, i);
        } else if l - 1 == 0 {
            assert(dl(a, b, k - 1, l - 1) == k - 1);
        }
        assert(dl(a, b, k - 1, l - 1) + (i + 1 - k - 1) + 1 + (j - l - 1) >= rm);
    }
    assert(dl(a, b, i + 1, j) >= rm);
}

/// Row minima never fall, so a row whose minimum is over budget ends the sweep.
pub proof fn lemma_row_min_monotone(a: Seq<char>, b: Seq<char>, i: int, r: int)
    requires
        1 <= i <= r <= a.len(),
        1 <= b.len(),
    ensures
        row_min(a, b, r, b.len() as int) >= row_min(a, b, i, b.len() as int),
    decreases r - i,
{
    let m = b.len() as int;
    if i < r {
        lemma_row_min_monotone(a, b, i, r - 1);
        let c = lemma_row_min_witness(a, b, r, m);
        lemma_next_row_ge(a, b, r - 1, c);
    }
}

/// Edits allowed against a name of `len` characters.
pub fn budget_for(len: usize) -> (k: usize)
    ensures
        k == spec_budget_for(len as int),
{
    let per = len / CHARS_PER_EDIT;
    if per < MAX_EDIT_DISTANCE {
        per
    } else {
        MAX_EDIT_DISTANCE
    }
}

/// Distance if it is at most `k`, `None` otherwise.
pub fn within(a: &str, b: &str, k: usize) -> (r: Option<usize>)
    requires
        a@.len() + b@.len() + 2 <= usize::MAX,
    ensures
        distance(a@, b@) >= 0,
        r == (if distance(a@, b@) <= k {
            Some(distance(a@, b@) as usize)
        } else {
            None::<usize>
        }),
        a@.len() > b@.len() + k || b@.len() > a@.len() + k ==> r is None,
{
    proof {
        lemma_distance_laws(a@, b@);
    }
    let q = Query::with_budget(a, k);
    q.distance_to(b)
}

/// The unrestricted Damerau-Levenshtein distance between two strings.
pub fn damerau_levenshtein(a: &str, b: &str) -> (d: usize)
    requires
        a@.len() + b@.len() + 2 <= usize::MAX,
    ensures
        d == distance(a@, b@),
{
    let x = text::chars_of(a);
    let y = text::chars_of(b);
    let ceiling = x.len() + y.len();
    proof {
        lemma_dl_bounds(a@, b@, a@.len() as int, b@.len() as int);
    }
    match bounded(&x, &y, ceiling) {
        Some(d) => d,
        None => ceiling,
    }
}

/// One name, expanded once, ready to be asked about a whole corpus.
pub struct Query {
    chars: Vec<char>,
    budget: usize,
}

impl Query {
    /// The name this query measures from.
    pub closed spec fn name(&self) -> Seq<char> {
        self.chars@
    }

    /// The edits this query allows.
    pub closed spec fn spec_budget(&self) -> int {
        self.budget as int
    }

    /// Prepare `name` with the edit budget its length earns — see
    /// [`budget_for`].
    pub fn new(name: &str) -> (q: Query)
        ensures
            q.name() == name@,
            q.spec_budget() == spec_budget_for(name@.len() as int),
    {
        let chars = text::chars_of(name);
        let budget = budget_for(chars.len());
        Query { chars, budget }
    }

    /// Prepare `name` with a budget the caller chose.
    pub fn with_budget(name: &str, k: usize) -> (q: Query)
        ensures
            q.name() == name@,
            q.spec_budget() == k,
    {
        Query { chars: text::chars_of(name), budget: k }
    }

    /// Edits allowed against this name. Zero means no candidate can match.
    pub fn budget(&self) -> (k: usize)
        ensures
            k == self.spec_budget(),
    {
        self.budget
    }

    /// Characters, not bytes. Length buckets are keyed on this.
    pub fn char_len(&self) -> (n: usize)
        ensures
            n == self.name().len(),
    {
        self.chars.len()
    }

    /// Distance to `candidate`, if it is within budget.
    ///
    /// The length check is exact: a distance of `k` cannot change a string's
    /// length by more than `k` (`lemma_dl_bounds`).
    pub fn distance_to(&self, candidate: &str) -> (r: Option<usize>)
        requires
            self.name().len() + candidate@.len() + 2 <= usize::MAX,
        ensures
            distance(self.name(), candidate@) >= 0,
            r == (if distance(self.name(), candidate@) <= self.spec_budget() {
                Some(distance(self.name(), candidate@) as usize)
            } else {
                None::<usize>
            }),
    {
        let other = text::chars_of(candidate);
        let n = self.chars.len();
        let m = other.len();
        proof {
            lemma_dl_bounds(self.chars@, other@, n as int, m as int);
        }
        let gap = if n >= m {
            n - m
        } else {
            m - n
        };
        if gap > self.budget {
            proof {
                lemma_dl_bounds(self.chars@, other@, n as int, m as int);
            }
            return None;
        }
        bounded(&self.chars, &other, self.budget)
    }
}

/// Row `r` of the offset table: infinity in column 0, then `dl(a, b, r - 1, _)`.
#[verifier::opaque]
spec fn row_ok(row: Seq<usize>, a: Seq<char>, b: Seq<char>, r: int, inf: int) -> bool {
    &&& row.len() == b.len() + 2
    &&& row[0] == inf
    &&& forall|c: int| 1 <= c <= b.len() + 1 ==> #[trigger] row[c] == dl(a, b, r - 1, c - 1)
}

/// Rows `0..=upto` of the offset table.
spec fn table_ok(d: Seq<Vec<usize>>, a: Seq<char>, b: Seq<char>, upto: int, inf: int) -> bool {
    &&& d.len() == upto + 1
    &&& d[0]@.len() == b.len() + 2
    &&& forall|x: int| 0 <= x < b.len() + 2 ==> #[trigger] d[0]@[x] == inf
    &&& forall|r: int| 1 <= r <= upto ==> #[trigger] row_ok(d[r]@, a, b, r, inf)
}

/// The recurrence at one cell, from the four candidate values.
proof fn lemma_cell(
    a: Seq<char>,
    b: Seq<char>,
    i: int,
    j: int,
    k: int,
    l: int,
    base: int,
    transpose: int,
    cell: int,
)
    requires
        1 <= i <= a.len(),
        1 <= j <= b.len(),
        k == last_before(a, i - 1, b[j - 1]),
        l == last_before(b, j - 1, a[i - 1]),
        k > 0 && l > 0 ==> base == dl(a, b, k - 1, l - 1),
        k == 0 || l == 0 ==> base >= a.len() + b.len(),
        transpose >= base + (i - k - 1) + 1 + (j - l - 1) || transpose >= a.len() + b.len(),
        transpose <= base + (i - k - 1) + 1 + (j - l - 1),
        cell == min2(
            min2(
                min2(
                    dl(a, b, i - 1, j - 1) + (if a[i - 1] == b[j - 1] {
                        0int
                    } else {
                        1int
                    }),
                    dl(a, b, i, j - 1) + 1,
                ),
                dl(a, b, i - 1, j) + 1,
            ),
            transpose,
        ),
    ensures
        cell == dl(a, b, i, j),
{
    lemma_last_before(a, i - 1, b[j - 1]);
    lemma_last_before(b, j - 1, a[i - 1]);
    lemma_dl_bounds(a, b, i - 1, j - 1);
    lemma_dl_bounds(a, b, i, j - 1);
    lemma_dl_bounds(a, b, i - 1, j);
    if k > 0 && l > 0 {
        lemma_dl_bounds(a, b, k - 1, l - 1);
    }
}

/// One row of the table: `dl(a, b, i, _)` behind an infinity and `i`, and the
/// smallest of the computed cells.
#[verifier::spinoff_prover]
#[verifier::rlimit(60)]
fn next_row(
    a: &Vec<char>,
    b: &Vec<char>,
    d: &Vec<Vec<usize>>,
    krow: &Vec<usize>,
    i: usize,
    inf: usize,
) -> (out: (Vec<usize>, usize))
    requires
        1 <= i <= a@.len(),
        1 <= b@.len(),
        inf == a@.len() + b@.len(),
        a@.len() + b@.len() + 2 <= usize::MAX,
        table_ok(d@, a@, b@, i as int, inf as int),
        krow@.len() == b@.len(),
        forall|c: int| 0 <= c < b@.len() ==> #[trigger] krow@[c] == last_before(a@, i - 1, b@[c]),
    ensures
        row_ok(out.0@, a@, b@, i + 1, inf as int),
        out.1 == row_min(a@, b@, i as int, b@.len() as int),
{
    reveal(row_ok);
    let ghost sa = a@;
    let ghost sb = b@;
    let m = b.len();
    let mut row: Vec<usize> = Vec::new();
    row.push(inf);
    row.push(i);
    let mut last_col: usize = 0;
    let mut lowest: usize = usize::MAX;
    let ai = a[i - 1];
    let prev: &Vec<usize> = &d[i];
    proof {
        assert(row_ok(d@[i as int]@, sa, sb, i as int, inf as int));
        reveal(row_ok);
    }
    let mut j: usize = 1;
    while j <= m
        invariant
            1 <= i <= sa.len(),
            1 <= j <= m + 1,
            m == sb.len(),
            a@ == sa,
            b@ == sb,
            ai == sa[i - 1],
            inf == sa.len() + sb.len(),
            sa.len() + sb.len() + 2 <= usize::MAX,
            table_ok(d@, sa, sb, i as int, inf as int),
            prev@ == d@[i as int]@,
            prev@.len() == m + 2,
            forall|c: int| 1 <= c <= m + 1 ==> #[trigger] prev@[c] == dl(sa, sb, i - 1, c - 1),
            krow@.len() == m,
            forall|c: int| 0 <= c < m ==> #[trigger] krow@[c] == last_before(sa, i - 1, sb[c]),
            row@.len() == j + 1,
            row@[0] == inf,
            forall|c: int| 1 <= c <= j ==> #[trigger] row@[c] == dl(sa, sb, i as int, c - 1),
            last_col == last_before(sb, j - 1, sa[i - 1]),
            j == 1 ==> lowest == usize::MAX,
            j > 1 ==> lowest == row_min(sa, sb, i as int, j - 1),
        decreases m + 1 - j,
    {
        let bj = b[j - 1];
        let k_row = krow[j - 1];
        let l_col = last_col;
        proof {
            lemma_last_before(sa, i - 1, sb[j - 1]);
            lemma_last_before(sb, j - 1, sa[i - 1]);
            lemma_dl_bounds(sa, sb, i - 1, j - 1);
            lemma_dl_bounds(sa, sb, i as int, j - 1);
            lemma_dl_bounds(sa, sb, i - 1, j as int);
        }
        let cost: usize = if ai != bj {
            1
        } else {
            0
        };
        if cost == 0 {
            last_col = j;
        }
        let far: &Vec<usize> = &d[k_row];
        proof {
            if k_row > 0 {
                assert(row_ok(d@[k_row as int]@, sa, sb, k_row as int, inf as int));
                assert(far@.len() == m + 2 && far@[0] == inf && (l_col > 0 ==> far@[l_col as int]
                    == dl(sa, sb, k_row - 1, l_col - 1))) by {
                    reveal(row_ok);
                }
            }
        }
        let base = far[l_col];
        let transpose = base.saturating_add(i - k_row - 1).saturating_add(1).saturating_add(
            j - l_col - 1,
        );
        let sub = prev[j] + cost;
        let ins = row[j] + 1;
        let del = prev[j + 1] + 1;
        let mut cell = sub;
        if ins < cell {
            cell = ins;
        }
        if del < cell {
            cell = del;
        }
        if transpose < cell {
            cell = transpose;
        }
        proof {
            lemma_cell(
                sa,
                sb,
                i as int,
                j as int,
                k_row as int,
                l_col as int,
                base as int,
                transpose as int,
                cell as int,
            );
        }
        row.push(cell);
        if cell < lowest {
            lowest = cell;
        }
        j = j + 1;
    }
    proof {
        reveal(row_ok);
    }
    (row, lowest)
}

/// Lowrance-Wagner, with the table offset by one so the algorithm's `-1` row
/// and column have somewhere to live, and an exit as soon as a whole row is
/// over budget.
fn bounded(a: &Vec<char>, b: &Vec<char>, k: usize) -> (r: Option<usize>)
    requires
        a@.len() + b@.len() + 2 <= usize::MAX,
    ensures
        distance(a@, b@) >= 0,
        r == (if distance(a@, b@) <= k {
            Some(distance(a@, b@) as usize)
        } else {
            None::<usize>
        }),
{
    let n = a.len();
    let m = b.len();
    if n == 0 {
        return if m <= k {
            Some(m)
        } else {
            None
        };
    }
    if m == 0 {
        return if n <= k {
            Some(n)
        } else {
            None
        };
    }
    let ghost sa = a@;
    let ghost sb = b@;
    let inf = n + m;
    // Row 0 is all infinity; row 1 is the distance from the empty prefix.
    let mut top: Vec<usize> = Vec::new();
    let mut first: Vec<usize> = Vec::new();
    first.push(inf);
    for c in 0..m + 2
        invariant
            top@.len() == c,
            forall|x: int| 0 <= x < c ==> #[trigger] top@[x] == inf,
    {
        top.push(inf);
    }
    for c in 0..m + 1
        invariant
            first@.len() == c + 1,
            first@[0] == inf,
            forall|x: int| 1 <= x <= c ==> #[trigger] first@[x] == dl(sa, sb, 0, x - 1),
    {
        first.push(c);
    }
    let mut d: Vec<Vec<usize>> = Vec::new();
    d.push(top);
    d.push(first);
    proof {
        reveal(row_ok);
        assert(row_ok(d@[1]@, sa, sb, 1, inf as int));
    }
    // krow[c] is the last row (1-based, above the current one) holding b[c].
    let mut krow: Vec<usize> = Vec::new();
    for c in 0..m
        invariant
            krow@.len() == c,
            forall|x: int| 0 <= x < c ==> #[trigger] krow@[x] == 0,
    {
        krow.push(0);
    }
    let mut i: usize = 1;
    while i <= n
        invariant
            1 <= i <= n + 1,
            n == sa.len(),
            m == sb.len(),
            a@ == sa,
            b@ == sb,
            n >= 1,
            m >= 1,
            inf == n + m,
            n + m + 2 <= usize::MAX,
            table_ok(d@, sa, sb, i as int, inf as int),
            krow@.len() == m,
            forall|c: int| 0 <= c < m ==> #[trigger] krow@[c] == last_before(sa, i - 1, sb[c]),
        decreases n + 1 - i,
    {
        let (row, lowest) = next_row(a, b, &d, &krow, i, inf);
        if lowest > k {
            proof {
                lemma_row_min_monotone(sa, sb, i as int, n as int);
                lemma_row_min_le(sa, sb, n as int, m as int, m as int);
            }
            return None;
        }
        let ai = a[i - 1];
        for c in 0..m
            invariant
                krow@.len() == m,
                m == sb.len(),
                1 <= i <= n,
                n == sa.len(),
                ai == sa[i - 1],
                b@ == sb,
                forall|x: int|
                    0 <= x < c ==> #[trigger] krow@[x] == last_before(sa, i as int, sb[x]),
                forall|x: int|
                    c <= x < m ==> #[trigger] krow@[x] == last_before(sa, i - 1, sb[x]),
        {
            if b[c] == ai {
                krow.set(c, i);
            }
        }
        let ghost before = d@;
        d.push(row);
        proof {
            assert forall|r: int| 1 <= r <= i + 1 implies #[trigger] row_ok(
                d@[r]@,
                sa,
                sb,
                r,
                inf as int,
            ) by {
                if r <= i {
                    assert(d@[r] == before[r]);
                }
            }
        }
        i = i + 1;
    }
    proof {
        assert(row_ok(d@[n + 1]@, sa, sb, n + 1, inf as int));
        reveal(row_ok);
    }
    let total = d[n + 1][m + 1];
    if total <= k {
        Some(total)
    } else {
        None
    }
}

} // verus!
