//! What a directory walk does with each entry it meets. The walk itself
//! opens directories and so lives with the program; what it enters, what it
//! passes over and why, and which files it takes are decided here.
//!
//! `node_modules` is never entered: it holds hundreds of vendored lockfiles
//! belonging to other people's projects. Every directory passed over is
//! passed over with a reason, so a cut the user can see is never a cut only
//! the author knows about.
use crate::lock;
use crate::text;
use vstd::prelude::*;

verus! {

/// Directories that never contain a lockfile worth auditing, only vendored
/// copies of other people's.
pub const SKIP: [&'static str; 13] = [
    "node_modules",
    ".git",
    "target",
    "vendor",
    ".venv",
    "venv",
    "__pycache__",
    ".tox",
    ".mypy_cache",
    ".pytest_cache",
    "dist",
    ".next",
    ".svelte-kit",
];

/// Lockfile names `stranger` recognises and has no reader for, matched
/// exactly.
pub const UNSUPPORTED: [&'static str; 14] = [
    "Gemfile.lock",
    "Pipfile.lock",
    "Podfile.lock",
    "bun.lock",
    "bun.lockb",
    "composer.lock",
    "conan.lock",
    "go.sum",
    "gradle.lockfile",
    "mix.lock",
    "packages.lock.json",
    "pdm.lock",
    "pubspec.lock",
    "yarn.lock",
];

/// How many directories below the one named the walk goes.
pub const MAX_DEPTH: usize = 6;

pub open spec fn listed<const N: usize>(list: [&'static str; N], name: Seq<char>) -> bool {
    exists|i: int| 0 <= i < N && (#[trigger] list@[i])@ == name
}

/// Why a directory `depth` levels down called `name` is not entered, or
/// `None` when it is. The name is checked before the depth, so a vendored
/// directory deep down reports as vendored.
pub open spec fn skip_spec(name: Seq<char>, depth: nat) -> Option<Seq<char>> {
    if listed(SKIP, name) {
        Some("on the skip list"@)
    } else if name.len() > 1 && name[0] == '.' {
        Some("hidden"@)
    } else if depth + 1 > MAX_DEPTH {
        Some("below MAX_DEPTH"@)
    } else {
        None
    }
}

fn is_listed<const N: usize>(list: &[&'static str; N], name: &str) -> (r: bool)
    ensures
        r == listed(*list, name@),
{
    for i in 0..N
        invariant
            forall|j: int| 0 <= j < i ==> (#[trigger] list@[j])@ != name@,
    {
        if text::same(list[i], name) {
            return true;
        }
    }
    false
}

/// Why the directory `name`, `depth` levels below the root, is not entered.
pub fn skip_reason(name: &str, depth: usize) -> (r: Option<&'static str>)
    ensures
        match skip_spec(name@, depth as nat) {
            None => r is None,
            Some(why) => r matches Some(s) && s@ == why,
        },
{
    if is_listed(&SKIP, name) {
        return Some("on the skip list");
    }
    let chars = text::chars_of(name);
    if chars.len() > 1 && chars[0] == '.' {
        return Some("hidden");
    }
    if depth >= MAX_DEPTH {
        return Some("below MAX_DEPTH");
    }
    None
}

/// What a file is to the walk.
#[derive(Debug, Clone, Copy, PartialEq, Eq)]
pub enum FileKind {
    /// A lockfile with a reader: its name ends with one of `lock::KNOWN`.
    Lockfile,
    /// A lockfile format with no reader, by its name.
    NoReader(&'static str),
    /// Anything else.
    Other,
}

pub open spec fn ends_with_known(name: Seq<char>) -> bool {
    exists|i: int| 0 <= i < 8 && (#[trigger] lock::KNOWN@[i])@.is_suffix_of(name)
}

/// A file called `name`, as the walk sees it.
pub fn file_kind(name: &str) -> (k: FileKind)
    ensures
        ends_with_known(name@) ==> k == FileKind::Lockfile,
        !ends_with_known(name@) && listed(UNSUPPORTED, name@) ==> (k matches FileKind::NoReader(s)
            && s@ == name@),
        !ends_with_known(name@) && !listed(UNSUPPORTED, name@) ==> k == FileKind::Other,
{
    let chars = text::chars_of(name);
    let known = lock::KNOWN;
    for i in 0..8
        invariant
            known@ == lock::KNOWN@,
            chars@ == name@,
            forall|j: int| 0 <= j < i ==> !(#[trigger] lock::KNOWN@[j])@.is_suffix_of(name@),
    {
        let k = text::chars_of(known[i]);
        if text::ends_with(&chars, &k) {
            return FileKind::Lockfile;
        }
    }
    for i in 0..14
        invariant
            forall|j: int| 0 <= j < i ==> (#[trigger] UNSUPPORTED@[j])@ != name@,
            forall|j: int| 0 <= j < 8 ==> !(#[trigger] lock::KNOWN@[j])@.is_suffix_of(name@),
    {
        let u = UNSUPPORTED[i];
        if text::same(u, name) {
            return FileKind::NoReader(u);
        }
    }
    FileKind::Other
}

} // verus!
