use stranger::error::Error;
use stranger::toml::{self, Value};

fn syntax(r: Result<Value, Error>) -> (String, u32, u32) {
    match r {
        Err(Error::Syntax { what, line, col }) => (what, line, col),
        Err(e) => panic!("expected a syntax error, got {e:?}"),
        Ok(v) => panic!("expected a syntax error, got {v:?}"),
    }
}

#[test]
fn keys_tables_and_arrays_of_tables() {
    let src = "top = \"x\"\n[a.b]\nn = 1_000\nok = true\n[[package]]\nname = \"p\"\n[[package]]\nname = \"q\"\n";
    let doc = toml::parse(src).unwrap();
    assert_eq!(doc.get("top").and_then(Value::as_str), Some("x"));
    let b = doc.get("a").and_then(|a| a.get("b")).unwrap();
    assert!(matches!(b.get("n"), Some(Value::Integer(1000))));
    assert_eq!(b.get("ok").and_then(Value::as_bool), Some(true));
    let pkgs = doc.get("package").and_then(Value::as_array).unwrap();
    assert_eq!(pkgs.len(), 2);
    assert_eq!(pkgs[1].get("name").and_then(Value::as_str), Some("q"));
}

#[test]
fn a_table_keeps_its_keys_in_byte_order() {
    let doc = toml::parse("b = 1\na = 2\nB = 3\n").unwrap();
    let keys: Vec<&str> = doc.as_table().unwrap().iter().map(|(k, _)| k.as_str()).collect();
    assert_eq!(keys, ["B", "a", "b"]);
}

#[test]
fn nested_tables_keep_their_keys_in_byte_order() {
    let src = "[[p]]\nz = { y = 1, x = 2 }\nm = 3\n[[p]]\nk = 4\nc = 5\n";
    let doc = toml::parse(src).unwrap();
    let items = doc.get("p").and_then(Value::as_array).unwrap();
    let first: Vec<&str> = items[0].as_table().unwrap().iter().map(|(k, _)| k.as_str()).collect();
    assert_eq!(first, ["m", "z"]);
    let inner: Vec<&str> = items[0].get("z").unwrap().as_table().unwrap().iter().map(|(k, _)| k.as_str()).collect();
    assert_eq!(inner, ["x", "y"]);
    let second: Vec<&str> = items[1].as_table().unwrap().iter().map(|(k, _)| k.as_str()).collect();
    assert_eq!(second, ["c", "k"]);
}

#[test]
fn strings_inline_tables_and_multiline_arrays() {
    let src = "s = \"caf\\u00e9\\n\"\nl = 'C:\\path'\nm = \"\"\"\nab\"\"\"\nt = { x = 1, y = \"z\" }\narr = [\n  1,\n  2, # two\n]\n";
    let doc = toml::parse(src).unwrap();
    assert_eq!(doc.get("s").and_then(Value::as_str), Some("caf\u{e9}\n"));
    assert_eq!(doc.get("l").and_then(Value::as_str), Some("C:\\path"));
    assert_eq!(doc.get("m").and_then(Value::as_str), Some("ab"));
    let t = doc.get("t").unwrap();
    assert_eq!(t.get("y").and_then(Value::as_str), Some("z"));
    assert_eq!(doc.get("arr").and_then(Value::as_array).map(|a| a.len()), Some(2));
}

#[test]
fn a_byte_order_mark_is_not_part_of_the_document() {
    let doc = toml::parse("\u{feff}a = 1\n").unwrap();
    assert!(matches!(doc.get("a"), Some(Value::Integer(1))));
    let (_, line, col) = syntax(toml::parse("\u{feff}a = \n"));
    assert_eq!((line, col), (1, 5));
}

#[test]
fn a_duplicate_key_is_refused_where_it_stands() {
    assert_eq!(syntax(toml::parse("a = 1\na = 2\n")), ("duplicate key `a`".to_string(), 2, 1));
}

#[test]
fn a_table_may_be_opened_once() {
    assert_eq!(syntax(toml::parse("[a]\nx = 1\n[a]\n")), ("table `a` is defined twice".to_string(), 3, 1));
}

#[test]
fn an_inline_table_cannot_be_reopened_by_a_header() {
    let (what, line, _) = syntax(toml::parse("a = {b = 1}\n[a]\n"));
    assert_eq!(what, "`a` is already defined as a value, not a table");
    assert_eq!(line, 2);
}

#[test]
fn a_header_under_a_scalar_is_refused() {
    assert_eq!(syntax(toml::parse("a = 1\n[a.b]\n")), ("this header sits under a non-table".to_string(), 2, 1));
}

#[test]
fn dotted_keys_and_missing_equals_are_refused() {
    assert_eq!(syntax(toml::parse("a.b = 1\n")).0, "dotted keys are not part of the supported TOML subset");
    assert_eq!(syntax(toml::parse("a 1\n")), ("expected '='".to_string(), 1, 3));
}

#[test]
fn an_empty_document_is_an_empty_table() {
    let doc = toml::parse("# nothing\n\n").unwrap();
    assert_eq!(doc.as_table().map(|t| t.len()), Some(0));
}
