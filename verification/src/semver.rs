//! Semantic versions: parsing and precedence.
//!
//! The part worth getting right is precedence, and specifically prerelease
//! precedence, which semver.org spells out in section 11:
//!
//! - a version *with* a prerelease has **lower** precedence than the same
//!   version without one, so `1.0.0-rc.1 < 1.0.0`
//! - identifiers are compared dot-segment by dot-segment; a segment of digits
//!   compares numerically, anything else compares as ASCII, and **numeric
//!   sorts below alphanumeric**
//! - if every shared segment is equal, more segments wins, so
//!   `1.0.0-alpha < 1.0.0-alpha.1`
//!
//! Build metadata (`+sha.5114f85`) plays no part in precedence and is dropped
//! on parsing.
use crate::text;
use core::cmp::Ordering;
use vstd::prelude::*;

verus! {

#[derive(Debug, Clone, PartialEq, Eq)]
pub struct Version {
    pub major: u64,
    pub minor: u64,
    pub patch: u64,
    /// Dot-separated identifiers, without the leading `-`. Empty means this is
    /// a release.
    pub pre: Vec<String>,
}

/// The number the decimal digits of `s` spell.
pub open spec fn digits_value(s: Seq<char>) -> nat
    decreases s.len(),
{
    if s.len() == 0 {
        0
    } else {
        digits_value(s.drop_last()) * 10 + ((s.last() as u32) - 48) as nat
    }
}

pub open spec fn all_digits(s: Seq<char>) -> bool {
    forall|i: int| 0 <= i < s.len() ==> text::is_digit(#[trigger] s[i])
}

/// What `u64::from_str` makes of `s`: an optional `+`, then one or more
/// decimal digits whose value fits.
pub open spec fn parse_num(s: Seq<char>) -> Option<u64> {
    let d = if s.len() > 0 && s[0] == '+' {
        s.drop_first()
    } else {
        s
    };
    if d.len() > 0 && all_digits(d) && digits_value(d) <= u64::MAX {
        Some(digits_value(d) as u64)
    } else {
        None
    }
}

/// `u64::from_str`, by hand.
pub fn number(s: &[char]) -> (r: Option<u64>)
    ensures
        r == parse_num(s@),
{
    let start: usize = if s.len() > 0 && s[0] == '+' {
        1
    } else {
        0
    };
    let ghost d = if s@.len() > 0 && s@[0] == '+' {
        s@.drop_first()
    } else {
        s@
    };
    proof {
        assert(d =~= s@.skip(start as int));
        assert(parse_num(s@) == (if d.len() > 0 && all_digits(d) && digits_value(d) <= u64::MAX {
            Some(digits_value(d) as u64)
        } else {
            None
        }));
    }
    if start >= s.len() {
        return None;
    }
    let mut n: u64 = 0;
    let mut i = start;
    while i < s.len()
        invariant
            start <= i <= s@.len(),
            start < s@.len(),
            d =~= s@.skip(start as int),
            parse_num(s@) == (if d.len() > 0 && all_digits(d) && digits_value(d) <= u64::MAX {
                Some(digits_value(d) as u64)
            } else {
                None
            }),
            all_digits(d.take(i - start)),
            n == digits_value(d.take(i - start)),
        decreases s@.len() - i,
    {
        let c = s[i];
        proof {
            assert(d.take(i + 1 - start).drop_last() =~= d.take(i - start));
            assert(d.take(i + 1 - start).last() == c);
        }
        if !('0' <= c && c <= '9') {
            proof {
                assert(!text::is_digit(d[i - start]));
            }
            return None;
        }
        let digit = ((c as u32) - 48) as u64;
        if n > (u64::MAX - digit) / 10 {
            proof {
                assert(digits_value(d.take(i + 1 - start)) > u64::MAX) by (nonlinear_arith)
                    requires
                        n > (u64::MAX - digit) / 10,
                        digits_value(d.take(i + 1 - start)) == n * 10 + digit,
                        digit <= 9,
                ;
                lemma_value_grows(d, (i + 1 - start) as int);
            }
            return None;
        }
        proof {
            assert(n * 10 + digit <= u64::MAX) by (nonlinear_arith)
                requires
                    n <= (u64::MAX - digit) / 10,
                    digit <= 9,
            ;
        }
        n = n * 10 + digit;
        i = i + 1;
    }
    proof {
        assert(d.take(d.len() as int) =~= d);
    }
    Some(n)
}

/// A longer run of digits is worth no less than its prefix.
proof fn lemma_value_grows(d: Seq<char>, k: int)
    requires
        0 <= k <= d.len(),
    ensures
        digits_value(d.take(k)) <= digits_value(d),
    decreases d.len() - k,
{
    if k < d.len() {
        lemma_value_grows(d, k + 1);
        assert(d.take(k + 1).drop_last() =~= d.take(k));
        assert(digits_value(d.take(k)) <= digits_value(d.take(k)) * 10 + ((d.take(k + 1).last() as u32) - 48) as nat) by (nonlinear_arith)
            requires
                digits_value(d.take(k)) >= 0,
        ;
    } else {
        assert(d.take(k) =~= d);
    }
}

/// `s` up to its first `c`, or all of it.
pub open spec fn before(s: Seq<char>, c: char) -> Seq<char> {
    if text::find(s, c) >= 0 {
        s.take(text::find(s, c))
    } else {
        s
    }
}

/// The version `s` spells, leniently: surrounding whitespace and a leading
/// `v` are dropped, build metadata is dropped, and a missing minor or patch
/// reads as zero.
pub open spec fn version_of(s: Seq<char>) -> Option<(u64, u64, u64, Seq<Seq<char>>)> {
    let t = text::trim(s);
    let t1 = if t.len() > 0 && t[0] == 'v' {
        t.drop_first()
    } else {
        t
    };
    let t2 = before(t1, '+');
    let dash = text::find(t2, '-');
    let core = if dash >= 0 {
        t2.take(dash)
    } else {
        t2
    };
    let pre = if dash >= 0 {
        text::split(t2.skip(dash + 1), '.')
    } else {
        seq![]
    };
    let parts = text::split(core, '.');
    let minor = if parts.len() > 1 {
        parse_num(parts[1])
    } else {
        Some(0u64)
    };
    let patch = if parts.len() > 2 {
        parse_num(parts[2])
    } else {
        Some(0u64)
    };
    match (parse_num(parts[0]), minor, patch) {
        (Some(a), Some(b), Some(c)) => if parts.len() > 3 {
            None
        } else {
            Some((a, b, c, pre))
        },
        _ => None,
    }
}

impl Version {
    /// Lenient on the shapes lockfiles actually contain: a missing minor or
    /// patch reads as zero, so `1` and `1.2` parse.
    pub fn parse(s: &str) -> (r: Option<Version>)
        ensures
            match version_of(s@) {
                Some((a, b, c, pre)) => r matches Some(v) && v.major == a && v.minor == b
                    && v.patch == c && text::strings(v.pre@) == pre,
                None => r is None,
            },
    {
        let chars = text::chars_of(s);
        let t = text::trimmed(&chars);
        let t1 = if t.len() > 0 && t[0] == 'v' {
            text::slice(&t, 1, t.len())
        } else {
            text::slice(&t, 0, t.len())
        };
        proof {
            assert(t@.drop_first() =~= t@.subrange(1, t@.len() as int));
            assert(t@ =~= t@.subrange(0, t@.len() as int));
        }
        let t2 = match text::find_char(&t1, '+') {
            Some(i) => text::slice(&t1, 0, i),
            None => text::slice(&t1, 0, t1.len()),
        };
        proof {
            assert(t1@ =~= t1@.subrange(0, t1@.len() as int));
            if text::find(t1@, '+') >= 0 {
                assert(t1@.take(text::find(t1@, '+')) =~= t1@.subrange(0, text::find(t1@, '+')));
            }
        }
        let (core, pre) = match text::find_char(&t2, '-') {
            Some(i) => {
                let rest = text::slice(&t2, i + 1, t2.len());
                proof {
                    assert(t2@.skip(i + 1) =~= t2@.subrange(i + 1, t2@.len() as int));
                    assert(t2@.take(i as int) =~= t2@.subrange(0, i as int));
                }
                (text::slice(&t2, 0, i), text::split_at(&rest, '.'))
            },
            None => {
                let none: Vec<Vec<char>> = Vec::new();
                proof {
                    assert(t2@ =~= t2@.subrange(0, t2@.len() as int));
                    assert(text::seqs(none@) =~= Seq::<Seq<char>>::empty());
                }
                (text::slice(&t2, 0, t2.len()), none)
            },
        };
        let parts = text::split_at(&core, '.');
        proof {
            text::lemma_split_nonempty(core@, '.');
            assert(text::seqs(parts@)[0] == parts@[0]@);
            if parts@.len() > 1 {
                assert(text::seqs(parts@)[1] == parts@[1]@);
            }
            if parts@.len() > 2 {
                assert(text::seqs(parts@)[2] == parts@[2]@);
            }
        }
        let major = match number(&parts[0]) {
            Some(n) => n,
            None => return None,
        };
        let minor = if parts.len() > 1 {
            match number(&parts[1]) {
                Some(n) => n,
                None => return None,
            }
        } else {
            0
        };
        let patch = if parts.len() > 2 {
            match number(&parts[2]) {
                Some(n) => n,
                None => return None,
            }
        } else {
            0
        };
        if parts.len() > 3 {
            return None;
        }
        Some(Version { major, minor, patch, pre: text::to_strings(&pre) })
    }
}

/// How two prerelease identifiers compare: numeric ones by value and below
/// every alphanumeric one, alphanumeric ones in byte order. -1, 0 or 1.
pub open spec fn ident_order(x: Seq<char>, y: Seq<char>) -> int {
    match (parse_num(x), parse_num(y)) {
        (Some(a), Some(b)) => if a < b {
            -1
        } else if a > b {
            1
        } else {
            0
        },
        (Some(_), None) => -1,
        (None, Some(_)) => 1,
        (None, None) => if text::seq_lt(x, y) {
            -1
        } else if text::seq_lt(y, x) {
            1
        } else {
            0
        },
    }
}

/// Identifier by identifier, then the longer list wins.
pub open spec fn idents_order(a: Seq<Seq<char>>, b: Seq<Seq<char>>) -> int
    decreases a.len(),
{
    if a.len() == 0 || b.len() == 0 {
        if a.len() < b.len() {
            -1
        } else if a.len() > b.len() {
            1
        } else {
            0
        }
    } else {
        let o = ident_order(a[0], b[0]);
        if o != 0 {
            o
        } else {
            idents_order(a.drop_first(), b.drop_first())
        }
    }
}

/// semver.org section 11.4: a release outranks every prerelease of the same
/// core version, and two prereleases compare identifier by identifier.
pub open spec fn pre_order(a: Seq<Seq<char>>, b: Seq<Seq<char>>) -> int {
    if a.len() == 0 && b.len() == 0 {
        0
    } else if a.len() == 0 {
        1
    } else if b.len() == 0 {
        -1
    } else {
        idents_order(a, b)
    }
}

/// The three numbers in order, then the prerelease.
pub open spec fn parts_order(
    a: (u64, u64, u64, Seq<Seq<char>>),
    b: (u64, u64, u64, Seq<Seq<char>>),
) -> int {
    if a.0 != b.0 {
        if a.0 < b.0 {
            -1
        } else {
            1
        }
    } else if a.1 != b.1 {
        if a.1 < b.1 {
            -1
        } else {
            1
        }
    } else if a.2 != b.2 {
        if a.2 < b.2 {
            -1
        } else {
            1
        }
    } else {
        pre_order(a.3, b.3)
    }
}

/// The three numbers in order, then the prerelease.
pub open spec fn version_order(a: Version, b: Version) -> int {
    parts_order(
        (a.major, a.minor, a.patch, text::strings(a.pre@)),
        (b.major, b.minor, b.patch, text::strings(b.pre@)),
    )
}

proof fn lemma_idents_range(a: Seq<Seq<char>>, b: Seq<Seq<char>>)
    ensures
        -1 <= idents_order(a, b) <= 1,
    decreases a.len(),
{
    if a.len() > 0 && b.len() > 0 && ident_order(a[0], b[0]) == 0 {
        lemma_idents_range(a.drop_first(), b.drop_first());
    }
}

/// Every comparison here answers -1, 0 or 1.
pub proof fn lemma_order_range(a: (u64, u64, u64, Seq<Seq<char>>), b: (u64, u64, u64, Seq<Seq<char>>))
    ensures
        -1 <= parts_order(a, b) <= 1,
{
    lemma_idents_range(a.3, b.3);
}

/// The `Ordering` a comparison to zero gives.
pub open spec fn ordering_of(o: int) -> Ordering {
    if o < 0 {
        Ordering::Less
    } else if o > 0 {
        Ordering::Greater
    } else {
        Ordering::Equal
    }
}

fn ident_compare(x: &String, y: &String) -> (r: i8)
    ensures
        r == ident_order(x@, y@),
{
    let xs = text::chars_of(x.as_str());
    let ys = text::chars_of(y.as_str());
    match (number(&xs), number(&ys)) {
        (Some(a), Some(b)) => if a < b {
            -1
        } else if a > b {
            1
        } else {
            0
        },
        (Some(_), None) => -1,
        (None, Some(_)) => 1,
        (None, None) => if text::less(&xs, &ys) {
            -1
        } else if text::less(&ys, &xs) {
            1
        } else {
            0
        },
    }
}

fn pre_compare(a: &[String], b: &[String]) -> (r: i8)
    ensures
        r == pre_order(text::strings(a@), text::strings(b@)),
{
    let ghost sa = text::strings(a@);
    let ghost sb = text::strings(b@);
    if a.len() == 0 && b.len() == 0 {
        return 0;
    }
    if a.len() == 0 {
        return 1;
    }
    if b.len() == 0 {
        return -1;
    }
    let mut i: usize = 0;
    proof {
        assert(sa.skip(0) =~= sa);
        assert(sb.skip(0) =~= sb);
    }
    while i < a.len() && i < b.len()
        invariant
            sa == text::strings(a@),
            sb == text::strings(b@),
            i <= a@.len(),
            i <= b@.len(),
            idents_order(sa, sb) == idents_order(sa.skip(i as int), sb.skip(i as int)),
        decreases a@.len() - i,
    {
        let o = ident_compare(&a[i], &b[i]);
        proof {
            assert(sa.skip(i as int)[0] == a@[i as int]@);
            assert(sb.skip(i as int)[0] == b@[i as int]@);
            assert(sa.skip(i as int).drop_first() =~= sa.skip(i + 1));
            assert(sb.skip(i as int).drop_first() =~= sb.skip(i + 1));
        }
        if o != 0 {
            return o;
        }
        i = i + 1;
    }
    if a.len() < b.len() {
        -1
    } else if a.len() > b.len() {
        1
    } else {
        0
    }
}

/// semver.org section 11.4 on two prerelease lists.
pub fn compare_pre(a: &[String], b: &[String]) -> (r: Ordering)
    ensures
        r == ordering_of(pre_order(text::strings(a@), text::strings(b@))),
{
    let o = pre_compare(a, b);
    if o < 0 {
        Ordering::Less
    } else if o > 0 {
        Ordering::Greater
    } else {
        Ordering::Equal
    }
}

impl Version {
    /// Precedence: the three numbers, then the prerelease. Two versions that
    /// differ only in build metadata compare equal, since parsing drops it.
    pub fn precedence(&self, other: &Version) -> (r: Ordering)
        ensures
            r == ordering_of(version_order(*self, *other)),
            self.major != other.major ==> r == (if self.major < other.major {
                Ordering::Less
            } else {
                Ordering::Greater
            }),
            self.major == other.major && self.minor != other.minor ==> r == (if self.minor
                < other.minor {
                Ordering::Less
            } else {
                Ordering::Greater
            }),
            self.major == other.major && self.minor == other.minor && self.patch != other.patch ==> r
                == (if self.patch < other.patch {
                Ordering::Less
            } else {
                Ordering::Greater
            }),
            self.major == other.major && self.minor == other.minor && self.patch == other.patch ==> {
                &&& self.pre@.len() == 0 && other.pre@.len() == 0 ==> r == Ordering::Equal
                &&& self.pre@.len() == 0 && other.pre@.len() > 0 ==> r == Ordering::Greater
                &&& self.pre@.len() > 0 && other.pre@.len() == 0 ==> r == Ordering::Less
            },
    {
        if self.major != other.major {
            if self.major < other.major {
                Ordering::Less
            } else {
                Ordering::Greater
            }
        } else if self.minor != other.minor {
            if self.minor < other.minor {
                Ordering::Less
            } else {
                Ordering::Greater
            }
        } else if self.patch != other.patch {
            if self.patch < other.patch {
                Ordering::Less
            } else {
                Ordering::Greater
            }
        } else {
            compare_pre(self.pre.as_slice(), other.pre.as_slice())
        }
    }
}

proof fn lemma_ident_laws(x: Seq<char>, y: Seq<char>, z: Seq<char>)
    ensures
        ident_order(x, y) == -ident_order(y, x),
        ident_order(x, y) <= 0 && ident_order(y, z) <= 0 ==> ident_order(x, z) <= 0,
        ident_order(x, y) <= 0 && ident_order(y, z) <= 0 && ident_order(x, z) == 0 ==> ident_order(x, y)
            == 0 && ident_order(y, z) == 0,
{
    text::lemma_lt_asymmetric(x, y);
    text::lemma_lt_asymmetric(y, z);
    text::lemma_lt_asymmetric(x, z);
    text::lemma_lt_total(x, y);
    text::lemma_lt_total(y, z);
    text::lemma_lt_total(x, z);
    text::lemma_lt_irreflexive(x);
    if text::seq_lt(x, y) && text::seq_lt(y, z) {
        text::lemma_lt_transitive(x, y, z);
    }
}

proof fn lemma_idents_laws(a: Seq<Seq<char>>, b: Seq<Seq<char>>, c: Seq<Seq<char>>)
    ensures
        idents_order(a, b) == -idents_order(b, a),
        idents_order(a, b) <= 0 && idents_order(b, c) <= 0 ==> idents_order(a, c) <= 0,
        idents_order(a, b) <= 0 && idents_order(b, c) <= 0 && idents_order(a, c) == 0 ==> idents_order(a, b)
            == 0 && idents_order(b, c) == 0,
    decreases a.len(),
{
    lemma_idents_range(a, b);
    lemma_idents_range(b, c);
    lemma_idents_range(a, c);
    if a.len() > 0 && b.len() > 0 && c.len() > 0 {
        lemma_ident_laws(a[0], b[0], c[0]);
        lemma_idents_laws(a.drop_first(), b.drop_first(), c.drop_first());
    } else if a.len() > 0 && b.len() > 0 {
        lemma_ident_laws(a[0], b[0], a[0]);
        lemma_idents_laws(a.drop_first(), b.drop_first(), a.drop_first());
    }
}

/// Precedence is a total preorder: comparing the other way round flips the
/// answer, and "not after" chains, strictly when either step is strict.
pub proof fn lemma_order_laws(
    a: (u64, u64, u64, Seq<Seq<char>>),
    b: (u64, u64, u64, Seq<Seq<char>>),
    c: (u64, u64, u64, Seq<Seq<char>>),
)
    ensures
        parts_order(a, b) == -parts_order(b, a),
        parts_order(a, a) == 0,
        parts_order(a, b) <= 0 && parts_order(b, c) <= 0 ==> parts_order(a, c) <= 0,
        parts_order(a, b) <= 0 && parts_order(b, c) <= 0 && parts_order(a, c) == 0 ==> parts_order(a, b)
            == 0 && parts_order(b, c) == 0,
{
    lemma_idents_laws(a.3, b.3, c.3);
    lemma_idents_laws(a.3, a.3, a.3);
}

proof fn lemma_idents_prefix(a: Seq<Seq<char>>, b: Seq<Seq<char>>)
    requires
        a.len() < b.len(),
        a == b.take(a.len() as int),
    ensures
        idents_order(a, b) == -1,
    decreases a.len(),
{
    if a.len() > 0 {
        lemma_ident_laws(a[0], a[0], a[0]);
        assert(a[0] == b[0]);
        assert(a.drop_first() =~= b.drop_first().take(a.len() - 1));
        lemma_idents_prefix(a.drop_first(), b.drop_first());
    }
}

/// What precedence means, on the parts themselves: the first of major, minor
/// and patch that differs decides, the smaller being older; with those equal,
/// a release outranks any prerelease, and a prerelease outranks one it is a
/// proper prefix of (`1.0.0-alpha < 1.0.0-alpha.1`); two numeric first
/// identifiers compare as numbers, and a numeric one sorts below an
/// alphanumeric one.
pub proof fn lemma_precedence_rules(
    a: (u64, u64, u64, Seq<Seq<char>>),
    b: (u64, u64, u64, Seq<Seq<char>>),
)
    ensures
        a.0 < b.0 ==> parts_order(a, b) < 0,
        a.0 == b.0 && a.1 < b.1 ==> parts_order(a, b) < 0,
        a.0 == b.0 && a.1 == b.1 && a.2 < b.2 ==> parts_order(a, b) < 0,
        a.0 == b.0 && a.1 == b.1 && a.2 == b.2 ==> {
            &&& a.3.len() == 0 && b.3.len() == 0 ==> parts_order(a, b) == 0
            &&& a.3.len() > 0 && b.3.len() == 0 ==> parts_order(a, b) < 0
            &&& 0 < a.3.len() < b.3.len() && a.3 == b.3.take(a.3.len() as int) ==> parts_order(a, b) < 0
            &&& (a.3.len() > 0 && b.3.len() > 0 && parse_num(a.3[0]) is Some && parse_num(b.3[0]) is Some
                && parse_num(a.3[0])->0 < parse_num(b.3[0])->0) ==> parts_order(a, b) < 0
            &&& a.3.len() > 0 && b.3.len() > 0 && parse_num(a.3[0]) is Some && parse_num(b.3[0]) is None
                ==> parts_order(a, b) < 0
        },
{
    if a.0 == b.0 && a.1 == b.1 && a.2 == b.2 && 0 < a.3.len() < b.3.len() && a.3 == b.3.take(
        a.3.len() as int,
    ) {
        lemma_idents_prefix(a.3, b.3);
    }
}

} // verus!
