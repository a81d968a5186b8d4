//! What every lockfile reader produces, regardless of ecosystem.
pub mod cargo;
pub mod gomod;
pub mod npm;
pub mod pnpm;
pub mod pip;
pub mod pypi;
pub mod yarn;

use crate::error::{Error, Result};
use crate::term;
use crate::text;
use vstd::prelude::*;

verus! {

#[derive(Debug, Clone, Copy, PartialEq, Eq, Structural)]
pub enum Ecosystem {
    Npm,
    PyPi,
    Crates,
    Go,
}

pub open spec fn ecosystem_name(e: Ecosystem) -> Seq<char> {
    match e {
        Ecosystem::Npm => "npm"@,
        Ecosystem::PyPi => "pypi"@,
        Ecosystem::Crates => "crates.io"@,
        Ecosystem::Go => "go"@,
    }
}

impl Ecosystem {
    /// The registry's own name, which is what every output prints.
    pub fn as_str(self) -> (s: &'static str)
        ensures
            s@ == ecosystem_name(self),
    {
        match self {
            Ecosystem::Npm => "npm",
            Ecosystem::PyPi => "pypi",
            Ecosystem::Crates => "crates.io",
            Ecosystem::Go => "go",
        }
    }
}

/// How tightly the file constrains the version.
///
/// The non-exact variants carry the specifier as written because the finding
/// has to be arguable: "`>=1.26`" is something a reader can check against the
/// file, "unpinned" is something they have to take on trust.
#[derive(Debug, Clone, PartialEq, Eq)]
pub enum Pin {
    /// One version, and it is the one in `Package::version`.
    Exact,
    /// `~=1.2`, or `==1.2.*`. Capped, and floats below the cap.
    Compatible(String),
    /// `>=1.0`, `<2`, `!=1.5`, or several joined by commas.
    Range(String),
    /// No specifier at all. Whatever the index serves that day.
    Unconstrained,
}

/// Where a package came from, to the extent the lockfile records it.
#[derive(Debug, Clone, Copy, PartialEq, Eq, Structural)]
pub enum Origin {
    /// The ecosystem's public registry — the one the corpus is a sample of.
    Registry,
    /// git, a path, a private index, a direct URL.
    Elsewhere,
}

#[derive(Debug, Clone)]
pub struct Package {
    pub name: String,
    pub version: String,
    /// The lockfile's own key for this entry.
    pub key: String,
    /// Declared for development only; `false` means "not marked dev".
    pub dev: bool,
    /// Installed only if the platform or the peer graph allows it.
    pub optional: bool,
    /// A workspace member or path dependency: somebody in this repo wrote it.
    pub first_party: bool,
    /// Code runs at install time.
    pub install_script: bool,
    /// Whether an integrity field was recorded at all.
    pub has_integrity: bool,
    pub pinned: Pin,
    pub origin: Origin,
}

#[derive(Debug)]
pub struct Tree {
    pub ecosystem: Ecosystem,
    /// The path the tree was read from, as the caller spelled it.
    pub source: String,
    pub packages: Vec<Package>,
    /// Package-to-package edges only. Edges from the root manifest live in
    /// `roots` instead.
    pub edges: Vec<(usize, usize)>,
    pub roots: Vec<usize>,
    /// Whether this file's *format* records dependency edges at all.
    pub records_edges: bool,
    /// Whether this file records that a package runs code at install time.
    pub records_install_scripts: bool,
}

/// A pin with its specifier as characters.
pub enum PinView {
    Exact,
    Compatible(Seq<char>),
    Range(Seq<char>),
    Unconstrained,
}

impl View for Pin {
    type V = PinView;

    open spec fn view(&self) -> PinView {
        match self {
            Pin::Exact => PinView::Exact,
            Pin::Compatible(s) => PinView::Compatible(s@),
            Pin::Range(s) => PinView::Range(s@),
            Pin::Unconstrained => PinView::Unconstrained,
        }
    }
}

/// A package with its strings as characters.
pub struct PackageView {
    pub name: Seq<char>,
    pub version: Seq<char>,
    pub key: Seq<char>,
    pub dev: bool,
    pub optional: bool,
    pub first_party: bool,
    pub install_script: bool,
    pub has_integrity: bool,
    pub pinned: PinView,
    pub origin: Origin,
}

impl View for Package {
    type V = PackageView;

    open spec fn view(&self) -> PackageView {
        PackageView {
            name: self.name@,
            version: self.version@,
            key: self.key@,
            dev: self.dev,
            optional: self.optional,
            first_party: self.first_party,
            install_script: self.install_script,
            has_integrity: self.has_integrity,
            pinned: self.pinned@,
            origin: self.origin,
        }
    }
}

pub open spec fn package_views(s: Seq<Package>) -> Seq<PackageView> {
    s.map_values(|p: Package| p@)
}

/// `0, 1, ..., n - 1`.
pub open spec fn every_index(n: int) -> Seq<usize> {
    Seq::new(n as nat, |i: int| i as usize)
}

/// `0, 1, ..., n - 1`.
pub fn all_indices(n: usize) -> (r: Vec<usize>)
    ensures
        r@ == every_index(n as int),
{
    let mut r: Vec<usize> = Vec::new();
    for i in 0..n
        invariant
            r@ == every_index(i as int),
    {
        r.push(i);
        proof {
            assert(r@ =~= every_index(i + 1));
        }
    }
    r
}

/// How many edges of `edges` point at `to`.
pub open spec fn count_into(edges: Seq<(usize, usize)>, to: int) -> nat
    decreases edges.len(),
{
    if edges.len() == 0 {
        0
    } else {
        count_into(edges.drop_last(), to) + (if edges.last().1 == to {
            1nat
        } else {
            0nat
        })
    }
}

/// How many edges of `edges` leave `from`.
pub open spec fn count_from(edges: Seq<(usize, usize)>, from: int) -> nat
    decreases edges.len(),
{
    if edges.len() == 0 {
        0
    } else {
        count_from(edges.drop_last(), from) + (if edges.last().0 == from {
            1nat
        } else {
            0nat
        })
    }
}

/// How many packages of `p` are not first-party.
pub open spec fn count_third_party(p: Seq<Package>) -> nat
    decreases p.len(),
{
    if p.len() == 0 {
        0
    } else {
        count_third_party(p.drop_last()) + (if !p.last().first_party {
            1nat
        } else {
            0nat
        })
    }
}

/// How many third-party packages of `p` recorded an integrity field.
pub open spec fn count_with_integrity(p: Seq<Package>) -> nat
    decreases p.len(),
{
    if p.len() == 0 {
        0
    } else {
        count_with_integrity(p.drop_last()) + (if !p.last().first_party
            && p.last().has_integrity {
            1nat
        } else {
            0nat
        })
    }
}

pub proof fn lemma_count_third_party_le(p: Seq<Package>)
    ensures
        count_third_party(p) <= p.len(),
        count_with_integrity(p) <= count_third_party(p),
    decreases p.len(),
{
    if p.len() > 0 {
        lemma_count_third_party_le(p.drop_last());
    }
}

impl Tree {
    /// Both ends of every edge name a package that is in the tree.
    pub open spec fn edges_in_range(&self) -> bool {
        forall|e: int|
            0 <= e < self.edges@.len() ==> (#[trigger] self.edges@[e]).0 < self.packages@.len()
                && self.edges@[e].1 < self.packages@.len()
    }

    /// Which reader produced this, from the file name on the end of `source`.
    pub fn format(&self) -> (f: Option<Format>)
        ensures
            f == source_format(self.source@),
    {
        let path = text::chars_of(self.source.as_str());
        match file_name_of(&path) {
            Some(name) => {
                let s = text::string_of(&name);
                Format::of(s.as_str())
            },
            None => None,
        }
    }

    /// In-degree of every package: how many package-to-package edges point at it.
    pub fn in_degree(&self) -> (deg: Vec<u32>)
        requires
            self.edges_in_range(),
            self.edges@.len() <= u32::MAX,
        ensures
            deg@.len() == self.packages@.len(),
            forall|i: int|
                0 <= i < deg@.len() ==> #[trigger] deg@[i] == count_into(self.edges@, i),
    {
        let mut deg: Vec<u32> = Vec::new();
        for i in 0..self.packages.len()
            invariant
                deg@.len() == i,
                forall|x: int| 0 <= x < i ==> #[trigger] deg@[x] == 0,
        {
            deg.push(0);
        }
        let n = self.packages.len();
        for e in 0..self.edges.len()
            invariant
                self.edges_in_range(),
                n == self.packages@.len(),
                deg@.len() == n,
                self.edges@.len() <= u32::MAX,
                forall|x: int|
                    0 <= x < n ==> #[trigger] deg@[x] == count_into(
                        self.edges@.take(e as int),
                        x,
                    ),
                forall|x: int| 0 <= x < n ==> #[trigger] deg@[x] <= e,
        {
            let to = self.edges[e].1;
            proof {
                assert(self.edges@.take(e + 1).drop_last() =~= self.edges@.take(e as int));
                assert(self.edges@[e as int].1 < n);
            }
            let cur = deg[to];
            deg.set(to, cur + 1);
        }
        proof {
            assert(self.edges@.take(self.edges@.len() as int) =~= self.edges@);
        }
        deg
    }

    /// How many packages the root manifest names directly.
    pub fn direct(&self) -> (n: usize)
        ensures
            n == self.roots@.len(),
    {
        self.roots.len()
    }

    /// Packages reached only through another package: third-party packages
    /// that are not roots, never below zero.
    pub fn transitive(&self) -> (n: usize)
        ensures
            n == (if count_third_party(self.packages@) >= self.roots@.len() {
                count_third_party(self.packages@) - self.roots@.len()
            } else {
                0
            }),
    {
        self.third_party().saturating_sub(self.roots.len())
    }

    /// How many packages came from somewhere else.
    pub fn third_party(&self) -> (n: usize)
        ensures
            n == count_third_party(self.packages@),
    {
        let mut n: usize = 0;
        for i in 0..self.packages.len()
            invariant
                n == count_third_party(self.packages@.take(i as int)),
                n <= i,
        {
            proof {
                assert(self.packages@.take(i + 1).drop_last() =~= self.packages@.take(i as int));
            }
            if !self.packages[i].first_party {
                n = n + 1;
            }
        }
        proof {
            assert(self.packages@.take(self.packages@.len() as int) =~= self.packages@);
        }
        n
    }

    /// How many packages are the project's own code.
    pub fn workspace_members(&self) -> (n: usize)
        ensures
            n == self.packages@.len() - count_third_party(self.packages@),
    {
        proof {
            lemma_count_third_party_le(self.packages@);
        }
        self.packages.len() - self.third_party()
    }

    /// Third-party entries that recorded an integrity field. Presence, never
    /// correctness.
    pub fn with_integrity(&self) -> (n: usize)
        ensures
            n == count_with_integrity(self.packages@),
    {
        let mut n: usize = 0;
        for i in 0..self.packages.len()
            invariant
                n == count_with_integrity(self.packages@.take(i as int)),
                n <= i,
        {
            proof {
                assert(self.packages@.take(i + 1).drop_last() =~= self.packages@.take(i as int));
            }
            if !self.packages[i].first_party && self.packages[i].has_integrity {
                n = n + 1;
            }
        }
        proof {
            assert(self.packages@.take(self.packages@.len() as int) =~= self.packages@);
        }
        n
    }
}

/// `path` without the `/`s it ends in.
pub open spec fn trim_slashes(path: Seq<char>) -> Seq<char>
    decreases path.len(),
{
    if path.len() > 0 && path.last() == '/' {
        trim_slashes(path.drop_last())
    } else {
        path
    }
}

proof fn lemma_trim_slashes(path: Seq<char>)
    ensures
        trim_slashes(path).len() <= path.len(),
        trim_slashes(path) == path.subrange(0, trim_slashes(path).len() as int),
        trim_slashes(path).len() > 0 ==> trim_slashes(path).last() != '/',
    decreases path.len(),
{
    if path.len() > 0 && path.last() == '/' {
        lemma_trim_slashes(path.drop_last());
        assert(path.drop_last().subrange(0, trim_slashes(path).len() as int) =~= path.subrange(
            0,
            trim_slashes(path).len() as int,
        ));
    } else {
        assert(path.subrange(0, path.len() as int) =~= path);
    }
}

/// The last component of a `/`-separated path, the way `Path::file_name`
/// reads it: trailing `/`s and `.` components are skipped, and a path ending
/// in `..` (or holding no component at all) has none.
pub open spec fn file_name(path: Seq<char>) -> Option<Seq<char>>
    decreases path.len(),
{
    let t = trim_slashes(path);
    let comp = after_last_slash(t);
    if comp.len() == 0 {
        None
    } else if comp == seq!['.'] {
        if 0 < t.len() <= path.len() {
            file_name(t.drop_last())
        } else {
            None
        }
    } else if comp == seq!['.', '.'] {
        None
    } else {
        Some(comp)
    }
}

pub open spec fn after_last_slash(path: Seq<char>) -> Seq<char>
    decreases path.len(),
{
    if path.len() == 0 {
        path
    } else if path.last() == '/' {
        seq![]
    } else {
        after_last_slash(path.drop_last()).push(path.last())
    }
}

/// Lockfiles we know how to read, in the order we look for them.
pub const KNOWN: [&'static str; 8] = [
    "package-lock.json",
    "pnpm-lock.yaml",
    "Cargo.lock",
    "requirements.txt",
    "poetry.lock",
    "uv.lock",
    "go.mod",
    "yarn.lock",
];

/// Which file this is, as opposed to which registry it points at.
#[derive(Debug, Clone, Copy, PartialEq, Eq, Structural)]
pub enum Format {
    Npm,
    Pnpm,
    Cargo,
    Pip,
    Poetry,
    Uv,
    GoMod,
    Yarn,
}

/// The reader the file name on the end of a path selects.
pub open spec fn source_format(source: Seq<char>) -> Option<Format> {
    match file_name(source) {
        Some(n) => format_of(n),
        None => None,
    }
}

/// The reader a file name selects: the first known name it ends with.
pub open spec fn format_of(name: Seq<char>) -> Option<Format> {
    if "package-lock.json"@.is_suffix_of(name) {
        Some(Format::Npm)
    } else if "pnpm-lock.yaml"@.is_suffix_of(name) {
        Some(Format::Pnpm)
    } else if "Cargo.lock"@.is_suffix_of(name) {
        Some(Format::Cargo)
    } else if "requirements.txt"@.is_suffix_of(name) {
        Some(Format::Pip)
    } else if "poetry.lock"@.is_suffix_of(name) {
        Some(Format::Poetry)
    } else if "uv.lock"@.is_suffix_of(name) {
        Some(Format::Uv)
    } else if "go.mod"@.is_suffix_of(name) {
        Some(Format::GoMod)
    } else if "yarn.lock"@.is_suffix_of(name) {
        Some(Format::Yarn)
    } else {
        None
    }
}

/// The file name that selects each reader.
pub open spec fn suffix_of(f: Format) -> Seq<char> {
    match f {
        Format::Npm => "package-lock.json"@,
        Format::Pnpm => "pnpm-lock.yaml"@,
        Format::Cargo => "Cargo.lock"@,
        Format::Pip => "requirements.txt"@,
        Format::Poetry => "poetry.lock"@,
        Format::Uv => "uv.lock"@,
        Format::GoMod => "go.mod"@,
        Format::Yarn => "yarn.lock"@,
    }
}

proof fn lemma_suffix_char(s: Seq<char>, name: Seq<char>, back: int)
    requires
        s.is_suffix_of(name),
        1 <= back <= s.len(),
    ensures
        name[name.len() - back] == s[s.len() - back],
{
    assert(name.subrange(name.len() - s.len(), name.len() as int)[s.len() - back] == name[name.len() - back]);
}

proof fn lemma_reveal_suffixes()
    ensures
        forall|f: Format| #[trigger] suffix_of(f).len() >= 6,
        suffix_of(Format::Npm)[16] == 'n' && suffix_of(Format::Npm)[11] == 'k',
        suffix_of(Format::Pnpm)[13] == 'l' && suffix_of(Format::Pnpm)[8] == 'k',
        suffix_of(Format::Cargo)[9] == 'k' && suffix_of(Format::Cargo)[4] == 'o',
        suffix_of(Format::Pip)[15] == 't' && suffix_of(Format::Pip)[10] == 't',
        suffix_of(Format::Poetry)[10] == 'k' && suffix_of(Format::Poetry)[5] == 'y',
        suffix_of(Format::Uv)[6] == 'k' && suffix_of(Format::Uv)[1] == 'v',
        suffix_of(Format::GoMod)[5] == 'd' && suffix_of(Format::GoMod)[0] == 'g',
        suffix_of(Format::Yarn)[8] == 'k' && suffix_of(Format::Yarn)[3] == 'n',
        suffix_of(Format::Npm).len() == 17,
        suffix_of(Format::Pnpm).len() == 14,
        suffix_of(Format::Cargo).len() == 10,
        suffix_of(Format::Pip).len() == 16,
        suffix_of(Format::Poetry).len() == 11,
        suffix_of(Format::Uv).len() == 7,
        suffix_of(Format::GoMod).len() == 6,
        suffix_of(Format::Yarn).len() == 9,
{
    reveal_strlit("package-lock.json");
    reveal_strlit("pnpm-lock.yaml");
    reveal_strlit("Cargo.lock");
    reveal_strlit("requirements.txt");
    reveal_strlit("poetry.lock");
    reveal_strlit("uv.lock");
    reveal_strlit("go.mod");
    reveal_strlit("yarn.lock");
}

/// A file name selects a reader exactly when it ends with that reader's
/// name: no known name is the end of another, so the order of the checks in
/// `format_of` never decides anything.
pub proof fn lemma_format_of_suffix(name: Seq<char>, f: Format)
    ensures
        format_of(name) == Some(f) <==> suffix_of(f).is_suffix_of(name),
{
    lemma_reveal_suffixes();
    let all = seq![
        Format::Npm,
        Format::Pnpm,
        Format::Cargo,
        Format::Pip,
        Format::Poetry,
        Format::Uv,
        Format::GoMod,
        Format::Yarn,
    ];
    assert forall|g: Format| #[trigger] suffix_of(g).is_suffix_of(name) implies name[name.len() - 1]
        == suffix_of(g)[suffix_of(g).len() - 1] && name[name.len() - 6] == suffix_of(g)[suffix_of(
        g,
    ).len() - 6] by {
        lemma_suffix_char(suffix_of(g), name, 1);
        lemma_suffix_char(suffix_of(g), name, 6);
    }
    assert(suffix_of(Format::Npm).is_suffix_of(name) ==> format_of(name) == Some(Format::Npm));
    assert(suffix_of(Format::Pnpm).is_suffix_of(name) ==> format_of(name) == Some(Format::Pnpm));
    assert(suffix_of(Format::Cargo).is_suffix_of(name) ==> format_of(name) == Some(Format::Cargo));
    assert(suffix_of(Format::Pip).is_suffix_of(name) ==> format_of(name) == Some(Format::Pip));
    assert(suffix_of(Format::Poetry).is_suffix_of(name) ==> format_of(name) == Some(Format::Poetry));
    assert(suffix_of(Format::Uv).is_suffix_of(name) ==> format_of(name) == Some(Format::Uv));
    assert(suffix_of(Format::GoMod).is_suffix_of(name) ==> format_of(name) == Some(Format::GoMod));
    assert(suffix_of(Format::Yarn).is_suffix_of(name) ==> format_of(name) == Some(Format::Yarn));
}

/// Every name `KNOWN` lists selects a reader, and no two select the same one.
pub proof fn lemma_known_formats()
    ensures
        forall|i: int| 0 <= i < KNOWN@.len() ==> format_of(#[trigger] KNOWN@[i]@) is Some,
        forall|i: int, j: int|
            0 <= i < j < KNOWN@.len() ==> format_of(#[trigger] KNOWN@[i]@) != format_of(
                #[trigger] KNOWN@[j]@,
            ),
{
    let fs = seq![
        Format::Npm,
        Format::Pnpm,
        Format::Cargo,
        Format::Pip,
        Format::Poetry,
        Format::Uv,
        Format::GoMod,
        Format::Yarn,
    ];
    assert(KNOWN@.len() == 8);
    assert forall|i: int| 0 <= i < 8 implies #[trigger] KNOWN@[i]@ == suffix_of(fs[i]) by {}
    assert forall|i: int| 0 <= i < 8 implies format_of(#[trigger] KNOWN@[i]@) == Some(fs[i]) by {
        lemma_format_of_suffix(KNOWN@[i]@, fs[i]);
    }
}

fn ends_in(name: &[char], suffix: &str) -> (r: bool)
    ensures
        r == suffix@.is_suffix_of(name@),
{
    let s = text::chars_of(suffix);
    text::ends_with(name, &s)
}

impl Format {
    /// The reader a filename selects, or `None` for a name no reader claims.
    ///
    /// Suffix rather than equality, so a file kept as
    /// `npm-xl.package-lock.json` still reads.
    pub fn of(name: &str) -> (f: Option<Format>)
        ensures
            f == format_of(name@),
    {
        let n = text::chars_of(name);
        if ends_in(&n, "package-lock.json") {
            Some(Format::Npm)
        } else if ends_in(&n, "pnpm-lock.yaml") {
            Some(Format::Pnpm)
        } else if ends_in(&n, "Cargo.lock") {
            Some(Format::Cargo)
        } else if ends_in(&n, "requirements.txt") {
            Some(Format::Pip)
        } else if ends_in(&n, "poetry.lock") {
            Some(Format::Poetry)
        } else if ends_in(&n, "uv.lock") {
            Some(Format::Uv)
        } else if ends_in(&n, "go.mod") {
            Some(Format::GoMod)
        } else if ends_in(&n, "yarn.lock") {
            Some(Format::Yarn)
        } else {
            None
        }
    }
}

pub(crate) fn after_last_slash_of(path: &Vec<char>, end: usize) -> (r: Vec<char>)
    requires
        end <= path@.len(),
    ensures
        r@ == after_last_slash(path@.subrange(0, end as int)),
{
    let mut start = end;
    while start > 0 && path[start - 1] != '/'
        invariant
            start <= end <= path@.len(),
            after_last_slash(path@.subrange(0, end as int)) == after_last_slash(
                path@.subrange(0, start as int),
            ) + path@.subrange(start as int, end as int),
        decreases start,
    {
        proof {
            let p = path@.subrange(0, start as int);
            assert(p.drop_last() =~= path@.subrange(0, start - 1));
            assert(path@.subrange(start - 1, end as int) =~= seq![p.last()] + path@.subrange(
                start as int,
                end as int,
            ));
            assert(after_last_slash(path@.subrange(0, start - 1)).push(p.last()) + path@.subrange(
                start as int,
                end as int,
            ) =~= after_last_slash(path@.subrange(0, start - 1)) + path@.subrange(
                start - 1,
                end as int,
            ));
        }
        start = start - 1;
    }
    proof {
        assert(after_last_slash(path@.subrange(0, start as int)) =~= seq![]);
        assert(seq![] + path@.subrange(start as int, end as int) =~= path@.subrange(
            start as int,
            end as int,
        ));
    }
    text::slice(path, start, end)
}

/// `Path::file_name` over a `/`-separated path.
pub fn file_name_of(path: &Vec<char>) -> (r: Option<Vec<char>>)
    ensures
        match r {
            Some(v) => file_name(path@) == Some(v@),
            None => file_name(path@) is None,
        },
{
    let mut end = path.len();
    proof {
        assert(path@.subrange(0, end as int) =~= path@);
    }
    loop
        invariant
            end <= path@.len(),
            file_name(path@) == file_name(path@.subrange(0, end as int)),
        decreases end,
    {
        let ghost p = path@.subrange(0, end as int);
        let mut trimmed = end;
        while trimmed > 0 && path[trimmed - 1] == '/'
            invariant
                trimmed <= end <= path@.len(),
                p == path@.subrange(0, end as int),
                trim_slashes(p) == trim_slashes(path@.subrange(0, trimmed as int)),
            decreases trimmed,
        {
            proof {
                assert(path@.subrange(0, trimmed as int).drop_last() =~= path@.subrange(
                    0,
                    trimmed - 1,
                ));
            }
            trimmed = trimmed - 1;
        }
        proof {
            let q = path@.subrange(0, trimmed as int);
            assert(trim_slashes(q) == q);
            lemma_trim_slashes(p);
        }
        let comp = after_last_slash_of(path, trimmed);
        if comp.len() == 0 {
            return None;
        }
        if comp.len() == 2 && comp[0] == '.' && comp[1] == '.' {
            proof {
                assert(comp@ =~= seq!['.', '.']);
            }
            return None;
        }
        if comp.len() == 1 && comp[0] == '.' {
            proof {
                assert(comp@ =~= seq!['.']);
                assert(trim_slashes(p).drop_last() =~= path@.subrange(0, trimmed - 1));
            }
            end = trimmed - 1;
        } else {
            proof {
                if comp@.len() == 1 {
                    assert(comp@ != seq!['.']);
                }
                if comp@.len() == 2 {
                    assert(comp@ != seq!['.', '.']);
                }
            }
            return Some(comp);
        }
    }
}

/// `after` is `before` with control characters replaced in every string a
/// reader took from the file.
pub open spec fn scrubbed(before: Tree, after: Tree) -> bool {
    &&& after.ecosystem == before.ecosystem
    &&& after.source == before.source
    &&& after.edges == before.edges
    &&& after.roots == before.roots
    &&& after.records_edges == before.records_edges
    &&& after.records_install_scripts == before.records_install_scripts
    &&& after.packages@.len() == before.packages@.len()
    &&& forall|i: int|
        0 <= i < after.packages@.len() ==> {
            let p = #[trigger] after.packages@[i];
            let q = before.packages@[i];
            &&& p.name@ == term::sanitized(q.name@)
            &&& p.version@ == term::sanitized(q.version@)
            &&& p.key@ == term::sanitized(q.key@)
            &&& p.dev == q.dev
            &&& p.optional == q.optional
            &&& p.first_party == q.first_party
            &&& p.install_script == q.install_script
            &&& p.has_integrity == q.has_integrity
            &&& p.origin == q.origin
            &&& pin_sanitized(q.pinned, p.pinned)
        }
}

/// Replace control characters in everything a reader took from the file.
///
/// Here rather than in the renderer: this is the one seam every reader
/// passes through, so a name that reaches the rest of the program is a name
/// that has been through it.
pub fn scrub(tree: Tree) -> (out: Tree)
    ensures
        scrubbed(tree, out),
{
    let Tree {
        ecosystem,
        source,
        packages,
        edges,
        roots,
        records_edges,
        records_install_scripts,
    } = tree;
    let mut out: Vec<Package> = Vec::new();
    for i in 0..packages.len()
        invariant
            out@.len() == i,
            forall|x: int|
                0 <= x < i ==> {
                    let p = #[trigger] out@[x];
                    let q = packages@[x];
                    &&& p.name@ == term::sanitized(q.name@)
                    &&& p.version@ == term::sanitized(q.version@)
                    &&& p.key@ == term::sanitized(q.key@)
                    &&& p.dev == q.dev
                    &&& p.optional == q.optional
                    &&& p.first_party == q.first_party
                    &&& p.install_script == q.install_script
                    &&& p.has_integrity == q.has_integrity
                    &&& p.origin == q.origin
                    &&& pin_sanitized(q.pinned, p.pinned)
                },
    {
        let q = &packages[i];
        let pinned = match &q.pinned {
            Pin::Exact => Pin::Exact,
            Pin::Compatible(spec) => Pin::Compatible(term::sanitize(spec.as_str())),
            Pin::Range(spec) => Pin::Range(term::sanitize(spec.as_str())),
            Pin::Unconstrained => Pin::Unconstrained,
        };
        out.push(
            Package {
                name: term::sanitize(q.name.as_str()),
                version: term::sanitize(q.version.as_str()),
                key: term::sanitize(q.key.as_str()),
                dev: q.dev,
                optional: q.optional,
                first_party: q.first_party,
                install_script: q.install_script,
                has_integrity: q.has_integrity,
                pinned,
                origin: q.origin,
            },
        );
    }
    Tree { ecosystem, source, packages: out, edges, roots, records_edges, records_install_scripts }
}

/// `after` is `before` with any specifier it carries sanitised.
pub open spec fn pin_sanitized(before: Pin, after: Pin) -> bool {
    match before {
        Pin::Exact => after == Pin::Exact,
        Pin::Unconstrained => after == Pin::Unconstrained,
        Pin::Compatible(s) => after matches Pin::Compatible(t) && t@ == term::sanitized(s@),
        Pin::Range(s) => after matches Pin::Range(t) && t@ == term::sanitized(s@),
    }
}

/// The names `KNOWN` lists, comma-separated.
pub open spec fn known_list() -> Seq<char> {
    text::join(KNOWN@.map_values(|k: &str| k@), ", "@)
}

/// A reader's result with the file's strings scrubbed, or its syntax error
/// told which file it came from.
pub open spec fn finished(raw: Result<Tree>, path: Seq<char>, r: Result<Tree>) -> bool {
    match raw {
        Ok(t) => r matches Ok(u) && scrubbed(t, u),
        Err(e) => r matches Err(f) && if e is Syntax {
            f matches Error::InFile { path: p, source: s } && p@ == path && *s == e
        } else {
            f == e
        },
    }
}

fn finish_read(raw: Result<Tree>, path: &str) -> (r: Result<Tree>)
    ensures
        finished(raw, path@, r),
{
    match raw {
        Ok(t) => Ok(scrub(t)),
        Err(e) => Err(e.in_file(path)),
    }
}

/// Read one lockfile's text, dispatching on the name at the end of `path`.
pub fn read(path: &str, src: &str) -> (r: Result<Tree>)
    requires
        src@.len() < u32::MAX,
        src@.len() <= usize::MAX / 4,
    ensures
        match file_name(path@) {
            None => r matches Err(Error::Usage(m)) && m@ == path@
                + ": filename is not valid UTF-8, so stranger cannot tell which format it is"@,
            Some(name) => match format_of(name) {
                None => r matches Err(Error::Usage(m)) && m@ == name
                    + ": not a lockfile stranger knows. It reads: "@ + known_list(),
                Some(Format::Npm) => exists|raw: Result<Tree>|
                    npm::read_spec(path@, src@, raw) && #[trigger] finished(raw, path@, r),
                Some(Format::Pnpm) => exists|raw: Result<Tree>|
                    pnpm::read_spec(path@, src@, raw) && #[trigger] finished(raw, path@, r),
                Some(Format::Cargo) => exists|raw: Result<Tree>|
                    cargo::read_spec(path@, src@, raw) && #[trigger] finished(raw, path@, r),
                Some(Format::Pip) => exists|raw: Result<Tree>|
                    pip::read_spec(path@, src@, raw) && #[trigger] finished(raw, path@, r),
                Some(Format::Poetry) => exists|raw: Result<Tree>|
                    pypi::poetry_spec(path@, src@, raw) && #[trigger] finished(raw, path@, r),
                Some(Format::Uv) => exists|raw: Result<Tree>|
                    pypi::uv_spec(path@, src@, raw) && #[trigger] finished(raw, path@, r),
                Some(Format::GoMod) => exists|raw: Result<Tree>|
                    gomod::read_spec(path@, src@, raw) && #[trigger] finished(raw, path@, r),
                Some(Format::Yarn) => exists|raw: Result<Tree>|
                    yarn::read_spec(path@, src@, raw) && #[trigger] finished(raw, path@, r),
            },
        },
{
    let chars = text::chars_of(path);
    let name = match file_name_of(&chars) {
        Some(n) => text::string_of(&n),
        None => {
            let mut msg = text::owned(path);
            text::append(&mut msg, ": filename is not valid UTF-8, so stranger cannot tell which format it is");
            return Err(Error::usage(msg.as_str()));
        },
    };
    match Format::of(name.as_str()) {
        Some(Format::Npm) => finish_read(npm::read(path, src), path),
        Some(Format::Pnpm) => finish_read(pnpm::read(path, src), path),
        Some(Format::Cargo) => finish_read(cargo::read(path, src), path),
        Some(Format::Pip) => finish_read(pip::read(path, src), path),
        Some(Format::Poetry) => finish_read(pypi::poetry(path, src), path),
        Some(Format::Uv) => finish_read(pypi::uv(path, src), path),
        Some(Format::GoMod) => finish_read(gomod::read(path, src), path),
        Some(Format::Yarn) => finish_read(yarn::read(path, src), path),
        None => {
            let known = KNOWN;
            let mut parts: Vec<Vec<char>> = Vec::new();
            for i in 0..known.len()
                invariant
                    known@ == KNOWN@,
                    text::seqs(parts@) == KNOWN@.take(i as int).map_values(|k: &str| k@),
            {
                let ghost old_parts = parts@;
                let c = text::chars_of(known[i]);
                parts.push(c);
                proof {
                    assert(text::seqs(parts@) =~= text::seqs(old_parts).push(c@));
                    assert(KNOWN@.take(i + 1).map_values(|k: &str| k@) =~= KNOWN@.take(i as int).map_values(
                        |k: &str| k@,
                    ).push(KNOWN@[i as int]@));
                }
            }
            proof {
                assert(KNOWN@.take(8) =~= KNOWN@);
            }
            let mut msg = name.clone();
            text::append(&mut msg, ": not a lockfile stranger knows. It reads: ");
            text::append(&mut msg, text::join_of(&parts, ", ").as_str());
            Err(Error::usage(msg.as_str()))
        },

    }
}

/// The root links worth keeping: each once, in index order, never a package
/// this repository wrote.
pub(crate) fn keep_roots(raw: &Vec<usize>, packages: &Vec<Package>) -> (roots: Vec<usize>)
    ensures
        forall|i: int, j: int| 0 <= i < j < roots@.len() ==> roots@[i] < roots@[j],
        forall|x: usize| #[trigger]
            roots@.contains(x) <==> (raw@.contains(x) && x < packages@.len()
                && !packages@[x as int].first_party),
{
    let n = packages.len();
    let mut mark: Vec<bool> = Vec::new();
    for i in 0..n
        invariant
            mark@.len() == i,
            forall|j: int| 0 <= j < i ==> !(#[trigger] mark@[j]),
    {
        mark.push(false);
    }
    for j in 0..raw.len()
        invariant
            mark@.len() == n,
            n == packages@.len(),
            forall|x: int|
                0 <= x < n ==> (#[trigger] mark@[x] <==> (exists|q: int| 0 <= q < j && raw@[q] == x as usize)
                    && !packages@[x].first_party),
    {
        let x = raw[j];
        if x < n && !packages[x].first_party {
            mark.set(x, true);
        }
    }
    let mut roots: Vec<usize> = Vec::new();
    for x in 0..n
        invariant
            mark@.len() == n,
            forall|i: int, j: int| 0 <= i < j < roots@.len() ==> roots@[i] < roots@[j],
            forall|i: int| 0 <= i < roots@.len() ==> roots@[i] < x,
            forall|y: usize| #[trigger] roots@.contains(y) <==> (y < x && mark@[y as int]),
    {
        if mark[x] {
            let ghost rb = roots@;
            roots.push(x);
            proof {
                assert(roots@ == rb.push(x));
                assert forall|y: usize| #[trigger] roots@.contains(y) <==> (y < x + 1 && mark@[y as int]) by {
                    if roots@.contains(y) {
                        let q = choose|q: int| 0 <= q < roots@.len() && roots@[q] == y;
                        if q < rb.len() {
                            assert(rb[q] == y);
                            assert(rb.contains(y));
                        } else {
                            assert(y == x);
                        }
                    }
                    if y < x + 1 && mark@[y as int] {
                        if y == x {
                            assert(roots@[rb.len() as int] == x);
                        } else {
                            assert(rb.contains(y));
                            let q = choose|q: int| 0 <= q < rb.len() && rb[q] == y;
                            assert(roots@[q] == y);
                        }
                    }
                }
            }
        }
    }
    proof {
        assert forall|x: usize| #[trigger] roots@.contains(x) <==> (raw@.contains(x) && x < packages@.len()
            && !packages@[x as int].first_party) by {
            if x < n {
                if raw@.contains(x) {
                    let q = choose|q: int| 0 <= q < raw@.len() && raw@[q] == x;
                }
                if mark@[x as int] {
                    let q = choose|q: int| 0 <= q < raw@.len() && raw@[q] == x;
                    assert(raw@.contains(x));
                }
            }
        }
    }
    roots
}

} // verus!
