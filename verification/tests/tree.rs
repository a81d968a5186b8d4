use stranger::lock::{self, Tree};
use stranger::tree::{self, Report};

const LOCK: &str = r#"{
  "lockfileVersion": 3,
  "packages": {
    "": {"dependencies": {"a": "^1"}},
    "apps/x": {"version": "0.0.1", "dependencies": {"b": "^2"}},
    "node_modules/a": {"version": "1.0.0", "dependencies": {"b": "^1"}},
    "node_modules/a/node_modules/b": {"version": "1.2.0"},
    "node_modules/b": {"version": "2.0.0"},
    "node_modules/apps-x": {"link": true}
  }
}"#;

fn trees() -> Vec<Tree> {
    vec![lock::npm::read("package-lock.json", LOCK).unwrap()]
}

#[test]
fn every_entry_of_a_name_is_a_hit() {
    let ts = trees();
    let hits = tree::resolve(&ts, "b");
    let versions: Vec<&str> = hits.iter().map(|h| h.pkg().version.as_str()).collect();
    assert_eq!(versions, ["1.2.0", "2.0.0"]);
    // The nested b is reached from a only.
    let parents = hits[0].parents();
    assert_eq!(parents.len(), 1);
    assert_eq!(ts[0].packages[parents[0]].name, "a");
}

#[test]
fn near_names_come_closest_first() {
    let ts = trees();
    let near = tree::near(&ts, "apps-y");
    let got: Vec<(&str, usize)> = near.iter().map(|n| (n.name.as_str(), n.distance)).collect();
    assert_eq!(got, [("apps-x", 1), ("apps/x", 2)]);
    assert_eq!(near[0].source, "package-lock.json");
}

#[test]
fn a_report_as_json() {
    let ts = trees();
    let r = Report::build(&ts, "b", ".", 3);
    assert_eq!(r.hits.len(), 2);
    assert!(r.near.is_empty());
    let out = tree::json(&r);
    assert!(out.starts_with("{\"query\":\"b\",\"found\":true,\"lockfiles\":1,\"depth\":3,\"occurrences\":[{\"source\":\"package-lock.json\",\"ecosystem\":\"npm\",\"name\":\"b\""));
    assert!(out.ends_with("],\"near\":[]}\n"));
}

#[test]
fn a_missing_name_reports_its_neighbours() {
    let ts = trees();
    let r = Report::build(&ts, "aa", ".", 3);
    assert!(r.hits.is_empty());
    assert_eq!(r.near.len() > 0, true);
    let out = tree::json(&r);
    assert!(out.starts_with("{\"query\":\"aa\",\"found\":false,"));
}
