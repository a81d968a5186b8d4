//! Character-level string work, stated over `Seq<char>`.
//!
//! Everything the readers, rules and renderers do to a string comes through
//! here: splitting it into characters, building one back up, comparing two in
//! the byte order `str`'s `Ord` uses (which is code-point order, since UTF-8
//! preserves it), and the few ASCII case and digit rules the formats need.
use vstd::prelude::*;

verus! {

/// `c` appended to `s`.
///
/// A wrapper around `String::push`, which vstd gives no specification: the
/// contract claims the string's characters afterwards are the old ones with
/// `c` on the end, which is what the standard library documents.
#[verifier::external_body]
pub fn push_char(s: &mut String, c: char)
    ensures
        final(s)@ == old(s)@.push(c),
{
    s.push(c);
}

/// The characters of `s`, in order.
pub fn chars_of(s: &str) -> (v: Vec<char>)
    ensures
        v@ == s@,
{
    let mut v: Vec<char> = Vec::new();
    for c in it: s.chars()
        invariant
            v@ == it.seq().take(it.index() as int),
            it.seq() == s@,
    {
        v.push(c);
    }
    v
}

/// A string holding exactly `v`.
pub fn string_of(v: &[char]) -> (s: String)
    ensures
        s@ == v@,
{
    let mut s = String::new();
    for i in 0..v.len()
        invariant
            s@ == v@.take(i as int),
    {
        push_char(&mut s, v[i]);
        proof {
            assert(v@.take(i as int).push(v@[i as int]) =~= v@.take(i + 1));
        }
    }
    proof {
        assert(v@.take(v@.len() as int) =~= v@);
    }
    s
}

/// `s` followed by `t`.
pub fn append(s: &mut String, t: &str)
    ensures
        final(s)@ == old(s)@ + t@,
{
    s.append(t);
}

/// An owned copy of `s`.
pub fn owned(s: &str) -> (r: String)
    ensures
        r@ == s@,
{
    String::from_str(s)
}

/// Whether the two strings hold the same characters.
pub fn same(a: &str, b: &str) -> (r: bool)
    ensures
        r == (a@ == b@),
{
    let x = chars_of(a);
    let y = chars_of(b);
    same_chars(&x, &y)
}

/// Whether the two character slices are equal.
pub fn same_chars(a: &[char], b: &[char]) -> (r: bool)
    ensures
        r == (a@ == b@),
{
    if a.len() != b.len() {
        return false;
    }
    for i in 0..a.len()
        invariant
            a@.len() == b@.len(),
            forall|x: int| 0 <= x < i ==> a@[x] == b@[x],
    {
        if a[i] != b[i] {
            return false;
        }
    }
    proof {
        assert(a@ =~= b@);
    }
    true
}

/// Whether `p` is a prefix of `s`.
pub fn starts_with(s: &[char], p: &[char]) -> (r: bool)
    ensures
        r == p@.is_prefix_of(s@),
{
    if p.len() > s.len() {
        return false;
    }
    for i in 0..p.len()
        invariant
            p@.len() <= s@.len(),
            forall|x: int| 0 <= x < i ==> p@[x] == s@[x],
    {
        if p[i] != s[i] {
            return false;
        }
    }
    proof {
        assert(p@ =~= s@.subrange(0, p@.len() as int));
    }
    true
}

/// Whether `p` is a suffix of `s`.
pub fn ends_with(s: &[char], p: &[char]) -> (r: bool)
    ensures
        r == p@.is_suffix_of(s@),
{
    if p.len() > s.len() {
        return false;
    }
    let off = s.len() - p.len();
    let plen = p.len();
    let slen = s.len();
    for i in 0..plen
        invariant
            plen == p@.len(),
            slen == s@.len(),
            p@.len() <= s@.len(),
            off + p@.len() == s@.len(),
            forall|x: int| 0 <= x < i ==> p@[x] == s@[off + x],
    {
        if p[i] != s[off + i] {
            return false;
        }
    }
    proof {
        assert(p@ =~= s@.subrange(off as int, s@.len() as int));
    }
    true
}

/// The characters `s[from..to]`.
pub fn slice(s: &[char], from: usize, to: usize) -> (r: Vec<char>)
    requires
        from <= to <= s@.len(),
    ensures
        r@ == s@.subrange(from as int, to as int),
{
    let mut r: Vec<char> = Vec::new();
    for i in from..to
        invariant
            from <= i <= to,
            to <= s@.len(),
            r@ == s@.subrange(from as int, i as int),
    {
        r.push(s[i]);
        proof {
            assert(s@.subrange(from as int, i as int).push(s@[i as int]) =~= s@.subrange(
                from as int,
                i + 1,
            ));
        }
    }
    r
}

/// Whether `c` occurs in `s`.
pub fn contains_char(s: &[char], c: char) -> (r: bool)
    ensures
        r == s@.contains(c),
{
    for i in 0..s.len()
        invariant
            forall|x: int| 0 <= x < i ==> s@[x] != c,
    {
        if s[i] == c {
            proof {
                assert(s@[i as int] == c);
            }
            return true;
        }
    }
    false
}

/// `'A'..='Z'` folded to lower case, everything else unchanged.
pub open spec fn lower(c: char) -> char {
    if 'A' <= c && c <= 'Z' {
        ((c as u32) + 32) as char
    } else {
        c
    }
}

/// The ASCII lower-case fold of `c`.
pub fn lower_char(c: char) -> (r: char)
    ensures
        r == lower(c),
{
    if 'A' <= c && c <= 'Z' {
        let u = (c as u8) + 32;
        u as char
    } else {
        c
    }
}

/// The ASCII lower-case fold of every character of `s`.
pub fn lowercase(s: &[char]) -> (r: Vec<char>)
    ensures
        r@ == s@.map_values(|c: char| lower(c)),
{
    let mut r: Vec<char> = Vec::new();
    for i in 0..s.len()
        invariant
            r@ == s@.take(i as int).map_values(|c: char| lower(c)),
    {
        r.push(lower_char(s[i]));
        proof {
            assert(s@.take(i + 1).map_values(|c: char| lower(c)) =~= s@.take(i as int).map_values(
                |c: char| lower(c),
            ).push(lower(s@[i as int])));
        }
    }
    proof {
        assert(s@.take(s@.len() as int) =~= s@);
    }
    r
}

pub open spec fn is_digit(c: char) -> bool {
    '0' <= c && c <= '9'
}

pub open spec fn is_alpha(c: char) -> bool {
    ('a' <= c && c <= 'z') || ('A' <= c && c <= 'Z')
}

pub open spec fn is_alnum(c: char) -> bool {
    is_digit(c) || is_alpha(c)
}

/// The characters Rust's `char::is_whitespace` accepts.
pub open spec fn is_space(c: char) -> bool {
    c == ' ' || c == '\t' || c == '\n' || c == '\r' || c == '\u{b}' || c == '\u{c}' || c
        == '\u{85}' || c == '\u{a0}' || c == '\u{1680}' || ('\u{2000}' <= c && c <= '\u{200a}')
        || c == '\u{2028}' || c == '\u{2029}' || c == '\u{202f}' || c == '\u{205f}' || c
        == '\u{3000}'
}

pub fn digit(c: char) -> (r: bool)
    ensures
        r == is_digit(c),
{
    '0' <= c && c <= '9'
}

pub fn alnum(c: char) -> (r: bool)
    ensures
        r == is_alnum(c),
{
    ('0' <= c && c <= '9') || ('a' <= c && c <= 'z') || ('A' <= c && c <= 'Z')
}

pub fn space(c: char) -> (r: bool)
    ensures
        r == is_space(c),
{
    c == ' ' || c == '\t' || c == '\n' || c == '\r' || c == '\u{b}' || c == '\u{c}' || c
        == '\u{85}' || c == '\u{a0}' || c == '\u{1680}' || ('\u{2000}' <= c && c <= '\u{200a}')
        || c == '\u{2028}' || c == '\u{2029}' || c == '\u{202f}' || c == '\u{205f}' || c
        == '\u{3000}'
}

/// `a` sorts strictly before `b` in `str` order: lexicographic by code point,
/// a proper prefix first.
pub open spec fn seq_lt(a: Seq<char>, b: Seq<char>) -> bool
    decreases a.len(),
{
    if a.len() == 0 {
        b.len() > 0
    } else if b.len() == 0 {
        false
    } else if a[0] < b[0] {
        true
    } else if a[0] == b[0] {
        seq_lt(a.drop_first(), b.drop_first())
    } else {
        false
    }
}

pub open spec fn seq_le(a: Seq<char>, b: Seq<char>) -> bool {
    seq_lt(a, b) || a == b
}

pub proof fn lemma_lt_irreflexive(a: Seq<char>)
    ensures
        !seq_lt(a, a),
    decreases a.len(),
{
    if a.len() > 0 {
        lemma_lt_irreflexive(a.drop_first());
    }
}

pub proof fn lemma_lt_asymmetric(a: Seq<char>, b: Seq<char>)
    ensures
        seq_lt(a, b) ==> !seq_lt(b, a),
    decreases a.len(),
{
    if a.len() > 0 && b.len() > 0 && a[0] == b[0] {
        lemma_lt_asymmetric(a.drop_first(), b.drop_first());
    }
}

pub proof fn lemma_lt_transitive(a: Seq<char>, b: Seq<char>, c: Seq<char>)
    requires
        seq_lt(a, b),
        seq_lt(b, c),
    ensures
        seq_lt(a, c),
    decreases a.len(),
{
    if a.len() > 0 && b.len() > 0 && c.len() > 0 && a[0] == b[0] && b[0] == c[0] {
        lemma_lt_transitive(a.drop_first(), b.drop_first(), c.drop_first());
    }
}

pub proof fn lemma_lt_total(a: Seq<char>, b: Seq<char>)
    ensures
        seq_lt(a, b) || seq_lt(b, a) || a == b,
    decreases a.len(),
{
    if a.len() > 0 && b.len() > 0 && a[0] == b[0] {
        lemma_lt_total(a.drop_first(), b.drop_first());
        if a.drop_first() == b.drop_first() {
            assert(a.len() == b.len());
            assert forall|i: int| 0 <= i < a.len() implies a[i] == b[i] by {
                if i > 0 {
                    assert(a[i] == a.drop_first()[i - 1]);
                    assert(b[i] == b.drop_first()[i - 1]);
                }
            }
            assert(a =~= b);
        }
    } else if a.len() == 0 && b.len() == 0 {
        assert(a =~= b);
    }
}

/// Whether `a` sorts strictly before `b`.
pub fn less(a: &[char], b: &[char]) -> (r: bool)
    ensures
        r == seq_lt(a@, b@),
{
    let mut i: usize = 0;
    proof {
        assert(a@.skip(0) =~= a@);
        assert(b@.skip(0) =~= b@);
    }
    while i < a.len() && i < b.len()
        invariant
            i <= a@.len(),
            i <= b@.len(),
            a@.subrange(0, i as int) == b@.subrange(0, i as int),
            seq_lt(a@, b@) == seq_lt(a@.skip(i as int), b@.skip(i as int)),
        decreases a@.len() - i,
    {
        if a[i] != b[i] {
            proof {
                assert(a@.skip(i as int)[0] == a@[i as int]);
                assert(b@.skip(i as int)[0] == b@[i as int]);
            }
            return a[i] < b[i];
        }
        proof {
            assert(a@.skip(i as int).drop_first() =~= a@.skip(i + 1));
            assert(b@.skip(i as int).drop_first() =~= b@.skip(i + 1));
            assert(a@.subrange(0, i + 1) =~= a@.subrange(0, i as int).push(a@[i as int]));
            assert(b@.subrange(0, i + 1) =~= b@.subrange(0, i as int).push(b@[i as int]));
        }
        i = i + 1;
    }
    i < b.len()
}

/// Whether the string `a` sorts strictly before the string `b`.
pub fn less_str(a: &str, b: &str) -> (r: bool)
    ensures
        r == seq_lt(a@, b@),
{
    let x = chars_of(a);
    let y = chars_of(b);
    less(&x, &y)
}


/// The decimal digit for `d < 10`.
pub open spec fn digit_char(d: int) -> char {
    (d + 48) as char
}

/// The decimal spelling of `n`, with no leading zeros.
pub open spec fn decimal(n: nat) -> Seq<char>
    decreases n,
{
    if n < 10 {
        seq![digit_char(n as int)]
    } else {
        decimal(n / 10).push(digit_char((n % 10) as int))
    }
}

fn digit_of(d: u64) -> (c: char)
    requires
        d < 10,
    ensures
        c == digit_char(d as int),
{
    let b = (d as u8) + 48;
    b as char
}

/// `n` in decimal.
pub fn decimal_of(n: u64) -> (s: String)
    ensures
        s@ == decimal(n as nat),
    decreases n,
{
    if n < 10 {
        let mut s = String::new();
        push_char(&mut s, digit_of(n));
        s
    } else {
        let mut s = decimal_of(n / 10);
        push_char(&mut s, digit_of(n % 10));
        s
    }
}


/// `n` in decimal, for numbers wider than 64 bits.
pub fn decimal_wide(n: u128) -> (s: String)
    ensures
        s@ == decimal(n as nat),
    decreases n,
{
    if n < 10 {
        let mut s = String::new();
        push_char(&mut s, digit_of((n % 10) as u64));
        s
    } else {
        let mut s = decimal_wide(n / 10);
        push_char(&mut s, digit_of((n % 10) as u64));
        s
    }
}

/// The strings of `s`, one after another.
pub open spec fn concat(s: Seq<Seq<char>>) -> Seq<char>
    decreases s.len(),
{
    if s.len() == 0 {
        seq![]
    } else {
        concat(s.drop_last()) + s.last()
    }
}

/// `s` without the whitespace it ends in.
pub open spec fn trim_end(s: Seq<char>) -> Seq<char>
    decreases s.len(),
{
    if s.len() > 0 && is_space(s.last()) {
        trim_end(s.drop_last())
    } else {
        s
    }
}

/// `s` without the whitespace it ends in.
pub fn trimmed_end(s: &str) -> (r: String)
    ensures
        r@ == trim_end(s@),
{
    let cs = chars_of(s);
    let mut end = cs.len();
    proof {
        assert(cs@.subrange(0, end as int) =~= cs@);
    }
    while end > 0 && space(cs[end - 1])
        invariant
            end <= cs@.len(),
            trim_end(cs@) == trim_end(cs@.subrange(0, end as int)),
        decreases end,
    {
        proof {
            assert(cs@.subrange(0, end as int).drop_last() =~= cs@.subrange(0, end - 1));
        }
        end = end - 1;
    }
    string_of(&slice(&cs, 0, end))
}

/// Where `c` first occurs in `s`, if it does.
pub fn find_char(s: &[char], c: char) -> (r: Option<usize>)
    ensures
        match r {
            Some(i) => i == find(s@, c) && i < s@.len(),
            None => find(s@, c) == -1,
        },
{
    let mut i: usize = 0;
    while i < s.len()
        invariant
            i <= s@.len(),
            !s@.take(i as int).contains(c),
        decreases s@.len() - i,
    {
        if s[i] == c {
            proof {
                assert(s@ =~= s@.take(i as int) + s@.skip(i as int));
                lemma_find_after(s@.take(i as int), s@.skip(i as int), c);
            }
            return Some(i);
        }
        proof {
            assert(s@.take(i + 1) =~= s@.take(i as int).push(s@[i as int]));
            if s@.take(i + 1).contains(c) {
                let t = s@.take(i + 1);
                let k = choose|k: int| 0 <= k < t.len() && t[k] == c;
                if k < i {
                    assert(s@.take(i as int)[k] == c);
                }
            }
        }
        i = i + 1;
    }
    proof {
        assert(s@.take(i as int) =~= s@);
        lemma_find_none(s@, c);
    }
    None
}

/// `s` without the whitespace it starts with.
pub open spec fn trim_start(s: Seq<char>) -> Seq<char>
    decreases s.len(),
{
    if s.len() > 0 && is_space(s[0]) {
        trim_start(s.drop_first())
    } else {
        s
    }
}

/// `s` without whitespace at either end, as `str::trim` reads it.
pub open spec fn trim(s: Seq<char>) -> Seq<char> {
    trim_start(trim_end(s))
}

/// `s` without whitespace at either end.
pub fn trimmed(s: &[char]) -> (r: Vec<char>)
    ensures
        r@ == trim(s@),
{
    let mut end = s.len();
    proof {
        assert(s@.subrange(0, end as int) =~= s@);
    }
    while end > 0 && space(s[end - 1])
        invariant
            end <= s@.len(),
            trim_end(s@) == trim_end(s@.subrange(0, end as int)),
        decreases end,
    {
        proof {
            assert(s@.subrange(0, end as int).drop_last() =~= s@.subrange(0, end - 1));
        }
        end = end - 1;
    }
    proof {
        let t = s@.subrange(0, end as int);
        assert(trim_end(t) == t);
    }
    let mut start: usize = 0;
    proof {
        assert(s@.subrange(0, end as int) =~= s@.subrange(start as int, end as int));
    }
    while start < end && space(s[start])
        invariant
            start <= end <= s@.len(),
            trim(s@) == trim_start(s@.subrange(start as int, end as int)),
        decreases end - start,
    {
        proof {
            assert(s@.subrange(start as int, end as int).drop_first() =~= s@.subrange(
                start + 1,
                end as int,
            ));
        }
        start = start + 1;
    }
    slice(s, start, end)
}

/// `s` split at every `c`, as `str::split` reads it: the pieces between the
/// separators, empty ones included, and one piece when there is no `c`.
pub open spec fn split(s: Seq<char>, c: char) -> Seq<Seq<char>>
    decreases s.len(),
{
    if s.len() == 0 {
        seq![seq![]]
    } else {
        let p = split(s.drop_last(), c);
        if s.last() == c {
            p.push(seq![])
        } else {
            p.update(p.len() - 1, p.last().push(s.last()))
        }
    }
}

pub proof fn lemma_split_nonempty(s: Seq<char>, c: char)
    ensures
        split(s, c).len() >= 1,
    decreases s.len(),
{
    if s.len() > 0 {
        lemma_split_nonempty(s.drop_last(), c);
    }
}

/// The pieces of `s` between the `c`s.
pub fn split_at(s: &[char], c: char) -> (r: Vec<Vec<char>>)
    ensures
        seqs(r@) == split(s@, c),
{
    let mut r: Vec<Vec<char>> = Vec::new();
    let mut cur: Vec<char> = Vec::new();
    for i in 0..s.len()
        invariant
            seqs(r@).push(cur@) == split(s@.take(i as int), c),
    {
        proof {
            assert(s@.take(i + 1).drop_last() =~= s@.take(i as int));
            assert(s@.take(i + 1).last() == s@[i as int]);
            lemma_split_nonempty(s@.take(i as int), c);
        }
        if s[i] == c {
            let ghost old_r = r@;
            let piece = cur;
            r.push(piece);
            cur = Vec::new();
            proof {
                assert(seqs(r@) =~= seqs(old_r).push(piece@));
                assert(seqs(r@).push(cur@) =~= seqs(old_r).push(piece@).push(seq![]));
            }
        } else {
            let ghost before = cur@;
            cur.push(s[i]);
            proof {
                let p = seqs(r@).push(before);
                assert(seqs(r@).push(cur@) =~= p.update(p.len() - 1, p.last().push(s@[i as int])));
            }
        }
    }
    proof {
        assert(s@.take(s@.len() as int) =~= s@);
    }
    let ghost old_r = r@;
    r.push(cur);
    proof {
        assert(seqs(r@) =~= seqs(old_r).push(cur@));
    }
    r
}

proof fn lemma_find_bounds(s: Seq<char>, c: char)
    ensures
        -1 <= find(s, c) < s.len(),
        find(s, c) >= 0 ==> s[find(s, c)] == c,
    decreases s.len(),
{
    if s.len() > 0 && s[0] != c {
        lemma_find_bounds(s.drop_first(), c);
    }
}

/// A string has no more lines than characters.
pub proof fn lemma_lines_len(s: Seq<char>)
    ensures
        lines(s).len() <= s.len(),
    decreases s.len(),
{
    if s.len() > 0 {
        let i = find(s, '\n');
        lemma_find_bounds(s, '\n');
        if i >= 0 && i < s.len() {
            lemma_lines_len(s.subrange(i + 1, s.len() as int));
        }
    }
}

/// How many characters the strings of `ls` hold together.
pub open spec fn total(ls: Seq<Seq<char>>) -> nat
    decreases ls.len(),
{
    if ls.len() == 0 {
        0
    } else {
        total(ls.drop_last()) + ls.last().len()
    }
}

pub proof fn lemma_total_concat(a: Seq<Seq<char>>, b: Seq<Seq<char>>)
    ensures
        total(a + b) == total(a) + total(b),
    decreases b.len(),
{
    if b.len() > 0 {
        lemma_total_concat(a, b.drop_last());
        assert((a + b).drop_last() =~= a + b.drop_last());
    } else {
        assert(a + b =~= a);
    }
}

/// The lines of a string hold no more characters than it does.
pub proof fn lemma_lines_total(s: Seq<char>)
    ensures
        total(lines(s)) <= s.len(),
    decreases s.len(),
{
    if s.len() > 0 {
        let i = find(s, '\n');
        lemma_find_bounds(s, '\n');
        if i >= 0 && i < s.len() {
            let rest = s.subrange(i + 1, s.len() as int);
            lemma_lines_total(rest);
            let first = strip_cr(s.subrange(0, i));
            lemma_total_concat(seq![first], lines(rest));
            assert(total(seq![first]) == first.len()) by {
                reveal_with_fuel(total, 2);
                assert(seq![first].drop_last() =~= Seq::<Seq<char>>::empty());
            }
        } else {
            assert(total(seq![s]) == s.len()) by {
                reveal_with_fuel(total, 2);
                assert(seq![s].drop_last() =~= Seq::<Seq<char>>::empty());
            }
        }
    }
}

/// The characters of each vector.
pub open spec fn seqs(l: Seq<Vec<char>>) -> Seq<Seq<char>> {
    l.map_values(|v: Vec<char>| v@)
}

/// Each string sorts strictly before the ones after it: sorted, no repeats.
pub open spec fn strictly_sorted(s: Seq<Seq<char>>) -> bool {
    forall|i: int, j: int| 0 <= i < j < s.len() ==> seq_lt(#[trigger] s[i], #[trigger] s[j])
}

/// `x` added to a strictly sorted list, which stays strictly sorted; nothing
/// happens when it is already there.
pub fn insert_unique(list: &mut Vec<Vec<char>>, x: Vec<char>)
    requires
        strictly_sorted(seqs(old(list)@)),
    ensures
        strictly_sorted(seqs(final(list)@)),
        forall|v: Seq<char>|
            #[trigger] seqs(final(list)@).contains(v) <==> (seqs(old(list)@).contains(v) || v
                == x@),
{
    let ghost before = seqs(list@);
    let mut p: usize = 0;
    while p < list.len() && less(&list[p], &x)
        invariant
            p <= list@.len(),
            before == seqs(list@),
            forall|j: int| 0 <= j < p ==> seq_lt(#[trigger] before[j], x@),
        decreases list@.len() - p,
    {
        proof {
            assert(before[p as int] == list@[p as int]@);
        }
        p = p + 1;
    }
    if p < list.len() && same_chars(&list[p], &x) {
        proof {
            assert(before[p as int] == list@[p as int]@);
            assert(before.contains(x@));
        }
        return;
    }
    proof {
        if p < before.len() {
            assert(before[p as int] == list@[p as int]@);
            lemma_lt_total(before[p as int], x@);
            assert(seq_lt(x@, before[p as int]));
            assert forall|j: int| p <= j < before.len() implies seq_lt(x@, #[trigger] before[j]) by {
                if j > p {
                    lemma_lt_transitive(x@, before[p as int], before[j]);
                }
            }
        }
    }
    let ghost xv = x@;
    list.insert(p, x);
    proof {
        let after = seqs(list@);
        assert(after =~= before.insert(p as int, xv));
        assert forall|i: int, j: int| 0 <= i < j < after.len() implies seq_lt(
            #[trigger] after[i],
            #[trigger] after[j],
        ) by {
            if j < p {
            } else if j == p {
                assert(after[i] == before[i]);
            } else if i > p {
                assert(after[i] == before[i - 1] && after[j] == before[j - 1]);
            } else if i == p {
                assert(after[j] == before[j - 1]);
            } else {
                assert(after[i] == before[i] && after[j] == before[j - 1]);
                lemma_lt_transitive(before[i], xv, before[j - 1]);
            }
        }
        assert forall|v: Seq<char>| #[trigger] after.contains(v) <==> (before.contains(v) || v
            == xv) by {
            if after.contains(v) {
                let i = choose|i: int| 0 <= i < after.len() && after[i] == v;
                if i < p {
                    assert(before[i] == v);
                } else if i > p {
                    assert(before[i - 1] == v);
                }
            }
            if before.contains(v) {
                let i = choose|i: int| 0 <= i < before.len() && before[i] == v;
                if i < p {
                    assert(after[i] == v);
                } else {
                    assert(after[i + 1] == v);
                }
            }
            if v == xv {
                assert(after[p as int] == v);
            }
        }
    }
}

/// The strings of `s` with `sep` between each pair.
pub open spec fn join(s: Seq<Seq<char>>, sep: Seq<char>) -> Seq<char>
    decreases s.len(),
{
    if s.len() == 0 {
        seq![]
    } else if s.len() == 1 {
        s[0]
    } else {
        join(s.drop_last(), sep) + sep + s.last()
    }
}

/// `parts` with `sep` between each pair, as a string.
pub fn join_of(parts: &Vec<Vec<char>>, sep: &str) -> (r: String)
    ensures
        r@ == join(seqs(parts@), sep@),
{
    let mut r = String::new();
    for i in 0..parts.len()
        invariant
            r@ == join(seqs(parts@).take(i as int), sep@),
    {
        proof {
            let t = seqs(parts@).take(i + 1);
            assert(t.drop_last() =~= seqs(parts@).take(i as int));
            assert(t.last() == parts@[i as int]@);
            if i == 0 {
                assert(join(seqs(parts@).take(0), sep@) =~= seq![]);
            }
        }
        if i > 0 {
            append(&mut r, sep);
        }
        let piece = string_of(&parts[i]);
        append(&mut r, piece.as_str());
        proof {
            if i == 0 {
                assert(r@ =~= seqs(parts@).take(1)[0]);
            }
        }
    }
    proof {
        assert(seqs(parts@).take(parts@.len() as int) =~= seqs(parts@));
    }
    r
}

/// The characters of each string.
pub open spec fn strings(s: Seq<String>) -> Seq<Seq<char>> {
    s.map_values(|v: String| v@)
}

/// Two strictly sorted lists holding the same strings are the same list.
pub proof fn lemma_sorted_unique(s: Seq<Seq<char>>, t: Seq<Seq<char>>)
    requires
        strictly_sorted(s),
        strictly_sorted(t),
        forall|v: Seq<char>| s.contains(v) <==> t.contains(v),
    ensures
        s == t,
    decreases s.len(),
{
    if s.len() == 0 {
        if t.len() > 0 {
            assert(t.contains(t[0]));
        }
        assert(s =~= t);
    } else {
        assert(s.contains(s[0]));
        assert(t.len() > 0);
        assert(t.contains(t[0]));
        let j = choose|j: int| 0 <= j < t.len() && t[j] == s[0];
        let i = choose|i: int| 0 <= i < s.len() && s[i] == t[0];
        if j > 0 {
            assert(seq_lt(t[0], t[j]));
            if i > 0 {
                assert(seq_lt(s[0], s[i]));
                lemma_lt_asymmetric(s[0], t[0]);
            } else {
                lemma_lt_irreflexive(s[0]);
            }
        }
        assert(s[0] == t[0]);
        let s1 = s.drop_first();
        let t1 = t.drop_first();
        assert forall|v: Seq<char>| s1.contains(v) <==> t1.contains(v) by {
            if s1.contains(v) {
                let x = choose|x: int| 0 <= x < s1.len() && s1[x] == v;
                assert(s[x + 1] == v);
                assert(t.contains(v));
                let y = choose|y: int| 0 <= y < t.len() && t[y] == v;
                if y == 0 {
                    assert(seq_lt(s[0], s[x + 1]));
                    lemma_lt_irreflexive(v);
                }
                assert(t1[y - 1] == v);
            }
            if t1.contains(v) {
                let y = choose|y: int| 0 <= y < t1.len() && t1[y] == v;
                assert(t[y + 1] == v);
                assert(s.contains(v));
                let x = choose|x: int| 0 <= x < s.len() && s[x] == v;
                if x == 0 {
                    assert(seq_lt(t[0], t[y + 1]));
                    lemma_lt_irreflexive(v);
                }
                assert(s1[x - 1] == v);
            }
        }
        assert forall|a: int, b: int| 0 <= a < b < s1.len() implies seq_lt(
            #[trigger] s1[a],
            #[trigger] s1[b],
        ) by {
            assert(s1[a] == s[a + 1] && s1[b] == s[b + 1]);
        }
        assert forall|a: int, b: int| 0 <= a < b < t1.len() implies seq_lt(
            #[trigger] t1[a],
            #[trigger] t1[b],
        ) by {
            assert(t1[a] == t[a + 1] && t1[b] == t[b + 1]);
        }
        lemma_sorted_unique(s1, t1);
        assert(s =~= seq![s[0]] + s1);
        assert(t =~= seq![t[0]] + t1);
    }
}

/// Whether `x` is one of the strings of `list`.
pub fn contains_chars(list: &Vec<Vec<char>>, x: &[char]) -> (r: bool)
    ensures
        r == seqs(list@).contains(x@),
{
    for i in 0..list.len()
        invariant
            forall|j: int| 0 <= j < i ==> (#[trigger] seqs(list@)[j]) != x@,
    {
        if same_chars(&list[i], x) {
            proof {
                assert(seqs(list@)[i as int] == x@);
            }
            return true;
        }
    }
    false
}

/// The strings of `a` that are not strings of `b`, in the order of `a`.
pub fn minus(a: &Vec<Vec<char>>, b: &Vec<Vec<char>>) -> (r: Vec<Vec<char>>)
    ensures
        strictly_sorted(seqs(a@)) ==> strictly_sorted(seqs(r@)),
        forall|v: Seq<char>| #[trigger]
            seqs(r@).contains(v) <==> (seqs(a@).contains(v) && !seqs(b@).contains(v)),
{
    let mut r: Vec<Vec<char>> = Vec::new();
    let ghost mut from: Seq<int> = Seq::empty();
    for i in 0..a.len()
        invariant
            from.len() == r@.len(),
            forall|x: int| 0 <= x < from.len() ==> 0 <= #[trigger] from[x] < i,
            forall|x: int| 0 <= x < from.len() ==> #[trigger] seqs(r@)[x] == seqs(a@)[from[x]],
            forall|x: int, y: int| 0 <= x < y < from.len() ==> #[trigger] from[x] < #[trigger] from[y],
            forall|v: Seq<char>| #[trigger]
                seqs(r@).contains(v) <==> (seqs(a@).take(i as int).contains(v) && !seqs(
                    b@,
                ).contains(v)),
    {
        let keep = !contains_chars(b, &a[i]);
        let ghost old_r = r@;
        if keep {
            let c = slice(&a[i], 0, a[i].len());
            proof {
                assert(a@[i as int]@.subrange(0, a@[i as int]@.len() as int) =~= a@[i as int]@);
            }
            r.push(c);
            proof {
                from = from.push(i as int);
                assert(seqs(r@) =~= seqs(old_r).push(seqs(a@)[i as int]));
            }
        }
        proof {
            let t = seqs(a@).take(i + 1);
            assert(seqs(a@)[i as int] == a@[i as int]@);
            assert(t =~= seqs(a@).take(i as int).push(seqs(a@)[i as int]));
            assert forall|v: Seq<char>| #[trigger]
                seqs(r@).contains(v) <==> (t.contains(v) && !seqs(b@).contains(v)) by {
                if keep {
                    assert(seqs(r@) =~= seqs(old_r).push(seqs(a@)[i as int]));
                    if seqs(r@).contains(v) {
                        let x = choose|x: int| 0 <= x < seqs(r@).len() && seqs(r@)[x] == v;
                        if x < old_r.len() {
                            assert(seqs(old_r)[x] == v);
                            assert(seqs(old_r).contains(v));
                            let y = choose|y: int| 0 <= y < i && seqs(a@).take(i as int)[y] == v;
                            assert(t[y] == v);
                        } else {
                            assert(t[i as int] == v);
                        }
                    }
                    if t.contains(v) && !seqs(b@).contains(v) {
                        let x = choose|x: int| 0 <= x < t.len() && t[x] == v;
                        if x < i {
                            assert(seqs(a@).take(i as int)[x] == v);
                            assert(seqs(old_r).contains(v));
                            let y = choose|y: int| 0 <= y < old_r.len() && seqs(old_r)[y] == v;
                            assert(seqs(r@)[y] == v);
                        } else {
                            assert(seqs(r@)[old_r.len() as int] == v);
                        }
                    }
                } else {
                    assert(r@ == old_r);
                    if t.contains(v) && !seqs(b@).contains(v) {
                        let x = choose|x: int| 0 <= x < t.len() && t[x] == v;
                        if x < i {
                            assert(seqs(a@).take(i as int)[x] == v);
                        }
                    }
                    if seqs(r@).contains(v) {
                        let y = choose|y: int| 0 <= y < i && seqs(a@).take(i as int)[y] == v;
                        assert(t[y] == v);
                    }
                }
            }
        }
    }
    proof {
        assert(seqs(a@).take(a@.len() as int) =~= seqs(a@));
        if strictly_sorted(seqs(a@)) {
            assert forall|x: int, y: int| 0 <= x < y < seqs(r@).len() implies seq_lt(
                #[trigger] seqs(r@)[x],
                #[trigger] seqs(r@)[y],
            ) by {
                assert(from[x] < from[y]);
            }
        }
    }
    r
}

/// The vectors as strings.
pub fn to_strings(v: &Vec<Vec<char>>) -> (r: Vec<String>)
    ensures
        strings(r@) == seqs(v@),
{
    let mut r: Vec<String> = Vec::new();
    for i in 0..v.len()
        invariant
            strings(r@) == seqs(v@).take(i as int),
    {
        let s = string_of(&v[i]);
        let ghost old_r = r@;
        r.push(s);
        proof {
            assert(strings(r@) =~= strings(old_r).push(s@));
            assert(seqs(v@).take(i + 1) =~= seqs(v@).take(i as int).push(v@[i as int]@));
        }
    }
    proof {
        assert(seqs(v@).take(v@.len() as int) =~= seqs(v@));
    }
    r
}

/// Index of the first `c` in `s`, or -1.
pub open spec fn find(s: Seq<char>, c: char) -> int
    decreases s.len(),
{
    if s.len() == 0 {
        -1
    } else if s[0] == c {
        0
    } else {
        let r = find(s.drop_first(), c);
        if r < 0 {
            -1
        } else {
            r + 1
        }
    }
}

/// `s` without one trailing `\r`, if it has one.
pub open spec fn strip_cr(s: Seq<char>) -> Seq<char> {
    if s.len() > 0 && s.last() == '\r' {
        s.drop_last()
    } else {
        s
    }
}

/// `str::lines`: split at `\n`, a `\r` right before the `\n` dropped with
/// it, and no empty line after a final `\n`.
pub open spec fn lines(s: Seq<char>) -> Seq<Seq<char>>
    decreases s.len(),
{
    if s.len() == 0 {
        seq![]
    } else {
        let i = find(s, '\n');
        if i < 0 || i >= s.len() {
            seq![s]
        } else {
            seq![strip_cr(s.subrange(0, i))] + lines(s.subrange(i + 1, s.len() as int))
        }
    }
}

proof fn lemma_find_after(cur: Seq<char>, rest: Seq<char>, c: char)
    requires
        !cur.contains(c),
        rest.len() > 0,
        rest[0] == c,
    ensures
        find(cur + rest, c) == cur.len(),
    decreases cur.len(),
{
    if cur.len() > 0 {
        assert((cur + rest).drop_first() =~= cur.drop_first() + rest);
        assert(!cur.drop_first().contains(c)) by {
            if cur.drop_first().contains(c) {
                let k = choose|k: int| 0 <= k < cur.drop_first().len() && cur.drop_first()[k] == c;
                assert(cur[k + 1] == c);
            }
        }
        lemma_find_after(cur.drop_first(), rest, c);
    }
}

proof fn lemma_find_none(s: Seq<char>, c: char)
    requires
        !s.contains(c),
    ensures
        find(s, c) == -1,
    decreases s.len(),
{
    if s.len() > 0 {
        assert(!s.drop_first().contains(c)) by {
            if s.drop_first().contains(c) {
                let k = choose|k: int| 0 <= k < s.drop_first().len() && s.drop_first()[k] == c;
                assert(s[k + 1] == c);
            }
        }
        lemma_find_none(s.drop_first(), c);
    }
}

/// The lines of `s`, as `str::lines` splits them.
pub fn lines_of(s: &str) -> (out: Vec<String>)
    ensures
        out@.map_values(|l: String| l@) == lines(s@),
{
    let cs = chars_of(s);
    let mut out: Vec<String> = Vec::new();
    let mut cur: Vec<char> = Vec::new();
    let ghost sv = s@;
    proof {
        assert(cur@ + sv.subrange(0, sv.len() as int) =~= sv);
    }
    for i in 0..cs.len()
        invariant
            cs@ == sv,
            !cur@.contains('\n'),
            out@.map_values(|l: String| l@) + lines(cur@ + sv.subrange(i as int, sv.len() as int))
                == lines(sv),
    {
        let c = cs[i];
        let ghost t = cur@ + sv.subrange(i as int, sv.len() as int);
        if c == '\n' {
            proof {
                let rest = sv.subrange(i as int, sv.len() as int);
                lemma_find_after(cur@, rest, '\n');
                assert(t.subrange(0, cur@.len() as int) =~= cur@);
                assert(t.subrange(cur@.len() + 1int, t.len() as int) =~= seq![] + sv.subrange(
                    i + 1,
                    sv.len() as int,
                ));
            }
            let n = cur.len();
            let line = if n > 0 && cur[n - 1] == '\r' {
                slice(&cur, 0, n - 1)
            } else {
                slice(&cur, 0, n)
            };
            proof {
                assert(cur@.subrange(0, n as int) =~= cur@);
                if n > 0 {
                    assert(cur@.drop_last() =~= cur@.subrange(0, n - 1));
                }
            }
            let ghost before = out@;
            out.push(string_of(&line));
            proof {
                assert(out@.map_values(|l: String| l@) =~= before.map_values(|l: String| l@).push(
                    strip_cr(cur@),
                ));
                assert(seq![strip_cr(cur@)] + lines(sv.subrange(i + 1, sv.len() as int))
                    =~= seq![strip_cr(cur@)] + lines(seq![] + sv.subrange(i + 1, sv.len() as int)));
                assert(seq![] + sv.subrange(i + 1, sv.len() as int) =~= sv.subrange(
                    i + 1,
                    sv.len() as int,
                ));
            }
            cur = Vec::new();
        } else {
            cur.push(c);
            proof {
                assert(cur@ + sv.subrange(i + 1, sv.len() as int) =~= t);
                assert(!cur@.contains('\n')) by {
                    if cur@.contains('\n') {
                        let k = choose|k: int| 0 <= k < cur@.len() && cur@[k] == '\n';
                        if k < cur@.len() - 1 {
                            assert(cur@.drop_last()[k] == '\n');
                        }
                    }
                }
            }
        }
    }
    proof {
        assert(cur@ + sv.subrange(sv.len() as int, sv.len() as int) =~= cur@);
        lemma_find_none(cur@, '\n');
    }
    if cur.len() > 0 {
        let ghost before = out@;
        out.push(string_of(&cur));
        proof {
            assert(out@.map_values(|l: String| l@) =~= before.map_values(|l: String| l@).push(
                cur@,
            ));
            assert(lines(cur@) =~= seq![cur@]);
        }
    } else {
        proof {
            assert(lines(cur@) =~= Seq::<Seq<char>>::empty());
            assert(out@.map_values(|l: String| l@) + lines(cur@) =~= out@.map_values(
                |l: String| l@,
            ));
        }
    }
    out
}


/// Bytes UTF-8 spends on `c`.
pub open spec fn char_utf8_len(c: char) -> nat {
    if '\u{80}' > c {
        1
    } else if '\u{800}' > c {
        2
    } else if '\u{10000}' > c {
        3
    } else {
        4
    }
}

/// Bytes of the UTF-8 encoding of `s`, which is what `str::len` counts.
pub open spec fn utf8_len(s: Seq<char>) -> nat
    decreases s.len(),
{
    if s.len() == 0 {
        0
    } else {
        utf8_len(s.drop_last()) + char_utf8_len(s.last())
    }
}

/// The UTF-8 length of `s`.
pub fn utf8_len_of(s: &[char]) -> (n: usize)
    requires
        s@.len() <= usize::MAX / 4,
    ensures
        n == utf8_len(s@),
{
    let mut n: usize = 0;
    for i in 0..s.len()
        invariant
            s@.len() <= usize::MAX / 4,
            n == utf8_len(s@.take(i as int)),
            n <= 4 * i,
    {
        let c = s[i];
        let w: usize = if '\u{80}' > c {
            1
        } else if '\u{800}' > c {
            2
        } else if '\u{10000}' > c {
            3
        } else {
            4
        };
        proof {
            assert(s@.take(i + 1).drop_last() =~= s@.take(i as int));
        }
        n = n + w;
    }
    proof {
        assert(s@.take(s@.len() as int) =~= s@);
    }
    n
}

/// The value of a run of decimal digits; a character that is not a digit
/// counts as a zero.
pub open spec fn decimal_value(s: Seq<char>) -> nat
    decreases s.len(),
{
    if s.len() == 0 {
        0
    } else {
        decimal_value(s.drop_last()) * 10 + digit_value(s.last())
    }
}

/// A decimal digit's value; anything else counts as nothing.
pub open spec fn digit_value(c: char) -> nat {
    if '0' <= c && c <= '9' {
        (c as int - '0' as int) as nat
    } else {
        0
    }
}

} // verus!
