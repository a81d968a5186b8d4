use stranger::error::Error;
use stranger::lock::{self, Ecosystem, Pin};
use stranger::rules::drift;

#[test]
fn requirements_classify_their_pins() {
    let t = lock::pip::read("requirements.txt", "requests==2.31.0\nflask>=2.0  # web\nnumpy\n-r base.txt\n").unwrap();
    assert_eq!(t.ecosystem, Ecosystem::PyPi);
    let names: Vec<&str> = t.packages.iter().map(|p| p.name.as_str()).collect();
    assert_eq!(names, ["requests", "flask", "numpy"]);
    assert_eq!(t.packages[0].pinned, Pin::Exact);
    assert_eq!(t.packages[0].version, "2.31.0");
    assert_eq!(t.packages[1].pinned, Pin::Range(">=2.0".to_string()));
    assert_eq!(t.packages[2].pinned, Pin::Unconstrained);
    assert!(t.edges.is_empty());
    assert_eq!(t.roots, [0, 1, 2]);
    assert!(!t.records_edges);
}

#[test]
fn a_requirement_without_a_name_is_refused() {
    match lock::pip::read("requirements.txt", "ok==1\n==1.0\n") {
        Err(Error::Syntax { what, line, col }) => {
            assert_eq!(what, "`==1.0` does not begin with a package name");
            assert_eq!((line, col), (2, 1));
        },
        other => panic!("{other:?}"),
    }
}

#[test]
fn go_mod_reads_its_require_block() {
    let src = "module example.com/app\n\ngo 1.21\n\nrequire (\n\tgithub.com/pkg/errors v0.9.1\n\tgolang.org/x/sys v0.5.0 // indirect\n)\n";
    let t = lock::gomod::read("go.mod", src).unwrap();
    assert_eq!(t.ecosystem, Ecosystem::Go);
    let names: Vec<&str> = t.packages.iter().map(|p| p.name.as_str()).collect();
    assert_eq!(names, ["github.com/pkg/errors", "golang.org/x/sys"]);
    assert_eq!(t.packages[1].version, "v0.5.0");
    assert!(t.edges.is_empty());
    assert_eq!(t.roots, [0]);
}

#[test]
fn go_mod_refuses_a_quoted_path() {
    match lock::gomod::read("go.mod", "module m\nrequire \"x\" v1.0.0\n") {
        Err(Error::Syntax { what, line, col }) => {
            assert_eq!(what, "`\"x\"` is a quoted path and stranger does not read those");
            assert_eq!((line, col), (2, 9));
        },
        other => panic!("{other:?}"),
    }
}

#[test]
fn yarn_resolves_edges_through_specifiers() {
    let src = "# yarn lockfile v1\n\n\"a@^1.0.0\":\n  version \"1.2.0\"\n  dependencies:\n    b \"^2.0.0\"\n\nb@^2.0.0, b@^2.1.0:\n  version \"2.1.0\"\n";
    let t = lock::yarn::read("yarn.lock", src).unwrap();
    let names: Vec<&str> = t.packages.iter().map(|p| p.name.as_str()).collect();
    assert_eq!(names, ["a", "b"]);
    assert_eq!(t.packages[1].version, "2.1.0");
    assert_eq!(t.edges, [(0, 1)]);
    assert_eq!(t.roots, [0]);
}

#[test]
fn yarn_refuses_a_berry_lockfile() {
    match lock::yarn::read("yarn.lock", "__metadata:\n  version: 6\n") {
        Err(Error::Usage(m)) => {
            assert_eq!(m, "yarn.lock: this is a Yarn Berry (v2+) lockfile; stranger reads the v1 format")
        },
        other => panic!("{other:?}"),
    }
}

#[test]
fn drift_lists_versions_lowest_first() {
    let src = "a==10.0.0\na==9.0.0\na==latest\na==1.0.0\na==1.0.0-rc.1\nb==2\nb==2\n";
    let t = lock::pip::read("requirements.txt", src).unwrap();
    let found = drift::scan(&t);
    assert_eq!(found.len(), 1);
    assert_eq!(found[0].package, "a");
    assert_eq!(found[0].detail, "5 versions: 1.0.0-rc.1, 1.0.0, 9.0.0, 10.0.0, latest");
}
