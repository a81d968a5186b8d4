use stranger::error::Error;
use stranger::corpus::Corpus;
use stranger::lock::{self, Ecosystem, Origin};
use stranger::rules::Rule;

const CARGO: &str = r#"version = 3

[[package]]
name = "app"
version = "0.1.0"
dependencies = [
 "serde",
 "winapi 0.3.9",
]

[[package]]
name = "serde"
version = "1.0.0"
source = "registry+https://github.com/rust-lang/crates.io-index"
checksum = "abc"

[[package]]
name = "winapi"
version = "0.2.8"
source = "registry+https://github.com/rust-lang/crates.io-index"

[[package]]
name = "winapi"
version = "0.3.9"
source = "git+https://example.com/winapi#abc"
dependencies = ["serde 1.0.0 (registry+https://github.com/rust-lang/crates.io-index)", "nothere"]
"#;

#[test]
fn cargo_reads_packages_edges_and_roots() {
    let t = lock::cargo::read("Cargo.lock", CARGO).unwrap();
    assert_eq!(t.ecosystem, Ecosystem::Crates);
    let keys: Vec<&str> = t.packages.iter().map(|p| p.key.as_str()).collect();
    assert_eq!(keys, ["app 0.1.0", "serde 1.0.0", "winapi 0.2.8", "winapi 0.3.9"]);
    assert!(t.packages[0].first_party);
    assert!(!t.packages[3].first_party);
    assert_eq!(t.packages[1].origin, Origin::Registry);
    assert_eq!(t.packages[3].origin, Origin::Elsewhere);
    assert!(t.packages[1].has_integrity && !t.packages[2].has_integrity);
    // The git winapi names serde with its source; the missing name is skipped.
    assert_eq!(t.edges, [(3, 1)]);
    // The workspace member's own edges are roots, the version picking the fork.
    assert_eq!(t.roots, [1, 3]);
    assert!(t.records_edges && !t.records_install_scripts);
}

#[test]
fn cargo_refuses_an_entry_without_a_name() {
    match lock::cargo::read("x/Cargo.lock", "[[package]]\nversion = \"1\"\n") {
        Err(Error::Usage(m)) => assert_eq!(m, "x/Cargo.lock: [[package]] #1 has no `name`"),
        other => panic!("{other:?}"),
    }
    match lock::cargo::read("x/Cargo.lock", "[[package]]\nname = \"a\"\n") {
        Err(Error::Usage(m)) => assert_eq!(m, "x/Cargo.lock: [[package]] #1 has no `version`"),
        other => panic!("{other:?}"),
    }
}

#[test]
fn cargo_refuses_a_file_without_packages() {
    match lock::cargo::read("Cargo.lock", "version = 3\n") {
        Err(Error::Usage(m)) => {
            assert_eq!(m, "Cargo.lock: no [[package]] entries; this does not look like a Cargo.lock")
        },
        other => panic!("{other:?}"),
    }
}

const POETRY: &str = r#"[[package]]
name = "requests"
version = "2.31.0"
optional = false
groups = ["main"]
files = [
    {file = "requests-2.31.0.whl", hash = "sha256:x"},
]

[package.dependencies]
charset_normalizer = ">=2"

[[package]]
name = "charset-normalizer"
version = "3.3.2"
groups = ["dev"]
files = []

[metadata]
lock-version = "2.1"
"#;

#[test]
fn poetry_normalises_names_and_derives_roots() {
    let t = lock::pypi::poetry("poetry.lock", POETRY).unwrap();
    assert_eq!(t.ecosystem, Ecosystem::PyPi);
    assert_eq!(t.packages.len(), 2);
    assert!(!t.packages[0].dev && t.packages[1].dev);
    assert!(t.packages[0].has_integrity && !t.packages[1].has_integrity);
    assert_eq!(t.packages[0].origin, Origin::Registry);
    // `charset_normalizer` names `charset-normalizer`.
    assert_eq!(t.edges, [(0, 1)]);
    // Nothing depends on requests, so the root manifest asked for it.
    assert_eq!(t.roots, [0]);
}

#[test]
fn poetry_refuses_a_file_without_its_marker() {
    match lock::pypi::poetry("p/poetry.lock", "[[package]]\nname = \"a\"\n") {
        Err(Error::Usage(m)) => {
            assert_eq!(m, "p/poetry.lock: no `metadata.lock-version`; this is not the lockfile its name claims to be")
        },
        other => panic!("{other:?}"),
    }
}

const UV: &str = r#"version = 1
requires-python = ">=3.11"

[[package]]
name = "app"
version = "0.1.0"
source = { editable = "." }
dependencies = [
    { name = "idna" },
]

[[package]]
name = "idna"
version = "3.7"
source = { registry = "https://pypi.org/simple" }
sdist = { url = "https://x/idna.tar.gz", hash = "sha256:y" }
"#;

#[test]
fn uv_reads_the_editable_root() {
    let t = lock::pypi::uv("uv.lock", UV).unwrap();
    assert!(t.packages[0].first_party);
    assert_eq!(t.packages[1].origin, Origin::Registry);
    assert!(t.packages[1].has_integrity);
    assert!(t.edges.is_empty());
    assert_eq!(t.roots, [1]);
}

#[test]
fn uv_refuses_an_entry_without_a_name() {
    match lock::pypi::uv("uv.lock", "requires-python = \">=3\"\n[[package]]\nversion = \"1\"\n") {
        Err(Error::Usage(m)) => assert_eq!(m, "uv.lock: `[[package]]` #1 has no `name`"),
        other => panic!("{other:?}"),
    }
}

const PNPM: &str = "lockfileVersion: '9.0'

importers:

  .:
    dependencies:
      '@babel/core':
        specifier: ^7.0.0
        version: 7.27.1

packages:

  '@babel/core@7.27.1':
    resolution: {integrity: sha512-x}

  debug@4.3.4:
    resolution: {integrity: sha512-y}

snapshots:

  '@babel/core@7.27.1':
    dependencies:
      debug: 4.3.4

  debug@4.3.4:
    optional: true
";

#[test]
fn pnpm_splits_scoped_names_and_reads_snapshots() {
    let t = lock::pnpm::read("pnpm-lock.yaml", PNPM).unwrap();
    assert_eq!(t.ecosystem, Ecosystem::Npm);
    assert_eq!(t.packages[0].name, "@babel/core");
    assert_eq!(t.packages[0].version, "7.27.1");
    assert_eq!(t.packages[1].key, "debug@4.3.4");
    assert!(t.packages[1].optional && !t.packages[0].optional);
    assert_eq!(t.packages[0].origin, Origin::Registry);
    assert_eq!(t.edges, [(0, 1)]);
    assert_eq!(t.roots, [0]);
    assert!(!t.records_install_scripts);
}

#[test]
fn pnpm_refuses_an_old_lockfile_version() {
    match lock::pnpm::read("pnpm-lock.yaml", "lockfileVersion: '5.4'\n") {
        Err(Error::Usage(m)) => assert_eq!(
            m,
            "pnpm-lock.yaml: lockfileVersion 5.4 is not supported; stranger reads 9 and 6. Run `pnpm install` with pnpm 8 or newer to upgrade the file."
        ),
        other => panic!("{other:?}"),
    }
}

#[test]
fn dispatch_reaches_every_reader() {
    assert!(lock::read("a/Cargo.lock", CARGO).is_ok());
    assert!(lock::read("a/poetry.lock", POETRY).is_ok());
    assert!(lock::read("a/uv.lock", UV).is_ok());
    assert!(lock::read("a/pnpm-lock.yaml", PNPM).is_ok());
    match lock::read("a/Cargo.lock", "a = \n") {
        Err(Error::InFile { path, .. }) => assert_eq!(path, "a/Cargo.lock"),
        other => panic!("{other:?}"),
    }
}

const PNPM_V6: &str = "lockfileVersion: '6.0'

dependencies:
  esbuild:
    specifier: ^0.19.0
    version: 0.19.0

packages:

  /esbuild@0.19.0:
    resolution: {integrity: sha512-z}
    requiresBuild: true
";

#[test]
fn the_install_script_rule_goes_by_what_the_file_records() {
    let corpus = Corpus::empty();
    let v6 = lock::pnpm::read("pnpm-lock.yaml", PNPM_V6).unwrap();
    assert!(v6.records_install_scripts);
    assert!(v6.packages[0].install_script);
    assert!(Rule::InstallScript.applies_to(&v6, &corpus));
    let v9 = lock::pnpm::read("pnpm-lock.yaml", PNPM).unwrap();
    assert!(!Rule::InstallScript.applies_to(&v9, &corpus));
    let cargo = lock::cargo::read("Cargo.lock", CARGO).unwrap();
    assert!(!Rule::InstallScript.applies_to(&cargo, &corpus));
}

#[test]
fn a_syntax_error_names_its_file_before_the_position() {
    let e = lock::read("a/Cargo.lock", "a = \n").unwrap_err();
    let m = e.message();
    assert!(m.starts_with("a/Cargo.lock: "), "{m}");
    let inner = match &e {
        Error::InFile { source, .. } => source.message(),
        other => panic!("{other:?}"),
    };
    assert_eq!(m, format!("a/Cargo.lock: {inner}"));
    assert!(inner.contains(" at 1:"), "{inner}");
}
