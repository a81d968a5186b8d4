use stranger::corpus::Corpus;
use stranger::diff::{build, Diff};
use stranger::lock::{Ecosystem, Origin, Package, Pin, Tree};

fn pkg(name: &str, version: &str) -> Package {
    Package {
        name: name.to_string(),
        version: version.to_string(),
        key: format!("{name}@{version}"),
        dev: false,
        optional: false,
        first_party: false,
        install_script: false,
        has_integrity: true,
        pinned: Pin::Exact,
        origin: Origin::Registry,
    }
}

fn tree(packages: Vec<Package>) -> Tree {
    Tree {
        ecosystem: Ecosystem::Npm,
        source: String::from("package-lock.json"),
        packages,
        edges: Vec::new(),
        roots: Vec::new(),
        records_edges: true,
        records_install_scripts: true,
    }
}

fn diff(before: Tree, after: Tree) -> Diff {
    build(before, after, &Corpus::empty())
}

#[test]
fn added_and_removed() {
    let d = diff(
        tree(vec![pkg("a", "1.0.0"), pkg("b", "1.0.0")]),
        tree(vec![pkg("a", "1.0.0"), pkg("c", "2.0.0")]),
    );
    assert_eq!(d.added, ["c@2.0.0"]);
    assert_eq!(d.removed, ["b@1.0.0"]);
    assert!(d.changed.is_empty());
}

/// A bump is one row, not an add and a remove.
#[test]
fn a_bump_is_a_change() {
    let d = diff(
        tree(vec![pkg("lodash", "4.17.20")]),
        tree(vec![pkg("lodash", "4.17.21")]),
    );
    assert_eq!(
        d.changed,
        [(
            "lodash".to_string(),
            "4.17.20".to_string(),
            "4.17.21".to_string()
        )]
    );
    assert_eq!(d.added, ["lodash@4.17.21"]);
}

#[test]
fn an_unchanged_tree_diffs_to_nothing() {
    let d = diff(tree(vec![pkg("a", "1.0.0")]), tree(vec![pkg("a", "1.0.0")]));
    assert!(d.is_empty());
    assert!(d.introduced.is_empty());
    assert!(d.worst().is_none());
}

/// A package already flagged before the change does not count as
/// introduced just because its version moved.
#[test]
fn a_bump_does_not_reintroduce_a_finding() {
    let mut before = pkg("esbuild", "0.20.0");
    before.install_script = true;
    let mut after = pkg("esbuild", "0.21.0");
    after.install_script = true;
    let d = diff(tree(vec![before]), tree(vec![after]));
    assert!(d.introduced.is_empty(), "{:?}", d.introduced);
    assert!(d.resolved.is_empty());
    assert_eq!(d.changed.len(), 1);
}

#[test]
fn a_new_install_script_is_introduced() {
    let mut after = pkg("esbuild", "0.21.0");
    after.install_script = true;
    let d = diff(tree(vec![pkg("a", "1.0.0")]), tree(vec![after]));
    assert_eq!(d.introduced.len(), 1);
    assert_eq!(d.introduced[0].package, "esbuild");
    assert_eq!(d.worst(), Some(d.introduced[0].severity));
}

#[test]
fn removing_the_problem_resolves_it() {
    let mut before = pkg("esbuild", "0.21.0");
    before.install_script = true;
    let d = diff(tree(vec![before]), tree(vec![pkg("a", "1.0.0")]));
    assert_eq!(d.resolved.len(), 1);
    assert!(d.introduced.is_empty());
    assert!(d.worst().is_none());
}

/// The prose and the exit code must agree: the package lists are identical
/// and the finding set is not.
#[test]
fn a_finding_moving_alone_is_not_an_empty_diff() {
    let quiet = tree(vec![pkg("esbuild", "0.21.0")]);
    let mut loud = tree(vec![pkg("esbuild", "0.21.0")]);
    loud.packages[0].install_script = true;

    let d = diff(quiet, loud);
    assert!(d.added.is_empty() && d.removed.is_empty() && d.changed.is_empty());
    assert_eq!(d.introduced.len(), 1);
    assert!(d.worst().is_some());
    assert!(!d.is_empty(), "a diff that fails --fail-on must print why");
}

/// Two versions collapsing to one pads rather than inventing a pairing.
#[test]
fn an_uneven_change_pads() {
    let d = diff(
        tree(vec![pkg("x", "1.0.0"), pkg("x", "2.0.0")]),
        tree(vec![pkg("x", "3.0.0")]),
    );
    assert_eq!(d.changed.len(), 2);
    assert_eq!(d.changed[1].2, "—");
}
