use stranger::error::Error;
use stranger::yaml::{self, Value};

fn syntax(r: Result<Value, Error>) -> (String, u32, u32) {
    match r {
        Err(Error::Syntax { what, line, col }) => (what, line, col),
        Err(e) => panic!("expected a syntax error, got {e:?}"),
        Ok(v) => panic!("expected a syntax error, got {v:?}"),
    }
}

#[test]
fn block_mappings_sequences_and_flow_collections() {
    let src = "a: 1\nb:\n  c: true\n  d: [x, 'y z']\n  e:\n    - one\n    - \"two\"\n  f: {k: v}\n";
    let doc = yaml::parse(src).unwrap();
    assert_eq!(doc.get("a").and_then(Value::as_str), Some("1"));
    let b = doc.get("b").unwrap();
    assert_eq!(b.get("c").and_then(Value::as_bool), Some(true));
    let d = b.get("d").and_then(Value::as_sequence).unwrap();
    assert_eq!(d[1].as_str(), Some("y z"));
    let e = b.get("e").and_then(Value::as_sequence).unwrap();
    assert_eq!(e.len(), 2);
    assert_eq!(e[1].as_str(), Some("two"));
    assert_eq!(b.get("f").and_then(|f| f.get("k")).and_then(Value::as_str), Some("v"));
}

#[test]
fn only_lowercase_true_and_false_are_typed() {
    let doc = yaml::parse("a: no\nb: 1.0\nc: False\nd: false\n").unwrap();
    assert_eq!(doc.get("a").and_then(Value::as_str), Some("no"));
    assert_eq!(doc.get("b").and_then(Value::as_str), Some("1.0"));
    assert_eq!(doc.get("c").and_then(Value::as_str), Some("False"));
    assert_eq!(doc.get("d").and_then(Value::as_bool), Some(false));
}

#[test]
fn a_bare_key_with_nothing_under_it_is_null() {
    let doc = yaml::parse("a:\nb: 1\n").unwrap();
    assert!(matches!(doc.get("a"), Some(Value::Null)));
    assert!(matches!(yaml::parse("# only a comment\n\n"), Ok(Value::Null)));
}

#[test]
fn blank_lines_do_not_close_a_block() {
    let doc = yaml::parse("packages:\n\n  a@1:\n    x: 1\n\n  b@2:\n    x: 2\n").unwrap();
    assert_eq!(doc.get("packages").and_then(Value::as_mapping).map(|m| m.len()), Some(2));
}

#[test]
fn a_flow_collection_may_stand_under_its_key() {
    let doc = yaml::parse("resolution:\n  {integrity: sha512-x}\n").unwrap();
    let r = doc.get("resolution").unwrap();
    assert_eq!(r.get("integrity").and_then(Value::as_str), Some("sha512-x"));
}

#[test]
fn quoted_keys_and_escapes() {
    let doc = yaml::parse("'@babel/core@7.27.1': 'it''s'\n\"k\": \"a\\tb\\u00e9\"\n").unwrap();
    assert_eq!(doc.get("@babel/core@7.27.1").and_then(Value::as_str), Some("it's"));
    assert_eq!(doc.get("k").and_then(Value::as_str), Some("a\tb\u{e9}"));
}

#[test]
fn one_leading_document_marker_is_accepted() {
    assert!(yaml::parse("---\na: 1\n").is_ok());
    assert_eq!(
        syntax(yaml::parse("---\na: 1\n---\nb: 2\n")),
        ("a second document is not part of the supported YAML subset".to_string(), 3, 1)
    );
}

#[test]
fn anchors_tabs_and_duplicates_are_refused() {
    assert_eq!(
        syntax(yaml::parse("a: &x 1\n")),
        ("anchors are not part of the supported YAML subset".to_string(), 1, 4)
    );
    assert_eq!(syntax(yaml::parse("a:\n\tb: 1\n")), ("tab used for indentation".to_string(), 2, 1));
    assert_eq!(syntax(yaml::parse("a: 1\na: 2\n")), ("duplicate key `a`".to_string(), 2, 1));
}

#[test]
fn a_sequence_level_with_its_key_is_refused() {
    assert_eq!(
        syntax(yaml::parse("a:\n- x\n")).0,
        "a block sequence must be indented under its key, not level with it"
    );
}

#[test]
fn a_flow_mapping_may_not_span_lines() {
    assert_eq!(syntax(yaml::parse("a: {b: 1,\n  c: 2}\n")), ("a flow mapping may not span lines".to_string(), 1, 4));
}

#[test]
fn an_unquoted_colon_in_a_value_is_refused() {
    assert_eq!(
        syntax(yaml::parse("a: b: c\n")),
        ("':' in a plain scalar; quote it, or start a block".to_string(), 1, 5)
    );
}

#[test]
fn a_mapping_keeps_its_keys_in_byte_order() {
    let doc = yaml::parse("b: 1\na: 2\nB: 3\n").unwrap();
    let keys: Vec<&str> = doc.as_mapping().unwrap().iter().map(|(k, _)| k.as_str()).collect();
    assert_eq!(keys, ["B", "a", "b"]);
    assert_eq!(doc.get("b").and_then(Value::as_str), Some("1"));
}
