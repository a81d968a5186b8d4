use stranger::error::Error;
use stranger::lock::{self, Origin};

const LOCK: &str = r#"{
  "name": "demo",
  "lockfileVersion": 3,
  "packages": {
    "": {"name": "demo", "dependencies": {"a": "^1", "c": "^1"}, "devDependencies": {"apps-x": "*"}},
    "apps/x": {"version": "0.0.1", "dependencies": {"b": "^2"}},
    "node_modules/a": {"version": "1.0.0", "resolved": "https://registry.npmjs.org/a/-/a-1.0.0.tgz", "integrity": "sha512-x", "dependencies": {"b": "^1"}},
    "node_modules/a/node_modules/b": {"version": "1.2.0", "hasInstallScript": true},
    "node_modules/b": {"version": "2.0.0", "dev": true},
    "node_modules/c": {"version": "1.0.0", "resolved": "git+https://example.com/c.git", "peerDependencies": {"b": "*"}},
    "node_modules/apps-x": {"link": true}
  }
}"#;

#[test]
fn packages_edges_and_roots_follow_npm_resolution() {
    let t = lock::npm::read("package-lock.json", LOCK).unwrap();
    let names: Vec<&str> = t.packages.iter().map(|p| p.name.as_str()).collect();
    // Keys in byte order: `/` sorts before letters.
    assert_eq!(names, ["apps/x", "a", "b", "apps-x", "b", "c"]);
    assert!(t.packages[0].first_party);
    assert!(t.packages[3].first_party);
    assert_eq!(t.packages[1].origin, Origin::Registry);
    assert!(t.packages[1].has_integrity);
    assert_eq!(t.packages[5].origin, Origin::Elsewhere);
    assert!(t.packages[2].install_script);
    assert!(t.packages[4].dev);
    assert_eq!(t.packages[2].key, "node_modules/a/node_modules/b");
    // a's b is the nested one; c's peer b is the top-level one.
    assert_eq!(t.edges, [(1, 2), (5, 4)]);
    // The root names a, c and the link; the workspace member names b; the
    // link is ours and is not a root.
    assert_eq!(t.roots, [1, 4, 5]);
    assert!(t.records_edges && t.records_install_scripts);
}

#[test]
fn version_one_is_refused_by_name() {
    match lock::npm::read("p.json", r#"{"lockfileVersion": 1, "dependencies": {}}"#) {
        Err(Error::Usage(m)) => assert_eq!(
            m,
            "p.json: lockfileVersion 1 is not supported; stranger reads 2 and 3. Run `npm install` with npm 7 or newer to upgrade the file."
        ),
        _ => panic!("read a version 1 file"),
    }
    assert!(lock::npm::read("p.json", r#"{"lockfileVersion": 2.5e0, "packages": {}}"#).is_ok());
    assert!(lock::npm::read("p.json", r#"{"lockfileVersion": 0.2e1, "packages": {}}"#).is_ok());
    assert!(lock::npm::read("p.json", r#"{"lockfileVersion": 19e-1, "packages": {}}"#).is_err());
}

#[test]
fn a_file_without_the_fields_says_what_is_missing() {
    match lock::npm::read("p.json", r#"{"name": "x"}"#) {
        Err(Error::Usage(m)) => assert_eq!(
            m,
            "p.json: no lockfileVersion field; this does not look like a package-lock.json"
        ),
        _ => panic!(),
    }
    match lock::npm::read("p.json", r#"{"lockfileVersion": 3}"#) {
        Err(Error::Usage(m)) => assert_eq!(m, "p.json: no `packages` map"),
        _ => panic!(),
    }
}

#[test]
fn a_syntax_error_is_told_its_file() {
    match lock::read("dir/package-lock.json", "{\"lockfileVersion\": 3,") {
        Err(e) => assert_eq!(
            e.message(),
            "dir/package-lock.json: expected a key at 1:23"
        ),
        Ok(_) => panic!(),
    }
}
