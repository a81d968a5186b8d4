use stranger::error::Error;
use stranger::json::{parse, Value};

fn syntax(r: Result<Value, Error>) -> (String, u32, u32) {
    match r {
        Err(Error::Syntax { what, line, col }) => (what, line, col),
        Err(e) => panic!("not a syntax error: {}", e.message()),
        Ok(_) => panic!("parsed"),
    }
}

#[test]
fn objects_keep_keys_sorted_and_the_last_duplicate() {
    let v = parse(r#"{"b": 1, "a": [true, null], "b": "two"}"#).unwrap();
    let m = v.as_object().unwrap();
    assert_eq!(m.len(), 2);
    assert_eq!(m[0].0, "a");
    assert_eq!(m[1].0, "b");
    assert_eq!(v.get("b").unwrap().as_str(), Some("two"));
    let a = v.get("a").unwrap().as_array().unwrap();
    assert_eq!(a.len(), 2);
    assert_eq!(a[0].as_bool(), Some(true));
    assert!(matches!(a[1], Value::Null));
}

#[test]
fn numbers_are_kept_as_written() {
    let v = parse("[-0.5e+10, 3]").unwrap();
    let a = v.as_array().unwrap();
    assert!(matches!(&a[0], Value::Number(n) if n == "-0.5e+10"));
    assert!(matches!(&a[1], Value::Number(n) if n == "3"));
}

#[test]
fn escapes_and_surrogate_pairs_decode() {
    let v = parse(r#""a\n\u00e9\ud83d\ude00\/""#).unwrap();
    assert_eq!(v.as_str(), Some("a\né😀/"));
}

#[test]
fn a_lone_surrogate_is_refused() {
    let (what, line, col) = syntax(parse(r#""\udc00""#));
    assert_eq!(what, "low surrogate with no high surrogate");
    assert_eq!((line, col), (1, 8));
}

#[test]
fn errors_carry_line_and_column() {
    let (what, line, col) = syntax(parse("{\n  \"a\": 1,\n  \"b\" 2\n}"));
    assert_eq!(what, "expected ':'");
    assert_eq!((line, col), (3, 7));
    let (what, _, _) = syntax(parse("[1, 2] x"));
    assert_eq!(what, "trailing content after the top-level value");
    let (what, _, _) = syntax(parse("[1,"));
    assert_eq!(what, "unexpected end of input");
    let (what, _, _) = syntax(parse("\"a\u{1}\""));
    assert_eq!(what, "unescaped control character in string");
    let (what, _, _) = syntax(parse("01"));
    assert_eq!(what, "trailing content after the top-level value");
    let (what, _, _) = syntax(parse("1."));
    assert_eq!(what, "expected a digit after '.'");
    let (what, _, _) = syntax(parse("tru"));
    assert_eq!(what, "expected `true`");
    let (what, _, _) = syntax(parse(r#""\x""#));
    assert_eq!(what, "unknown escape `\\x`");
    let (what, _, _) = syntax(parse(r#""\u12x4""#));
    assert_eq!(what, "\\u escape needs four hex digits");
    let (what, _, _) = syntax(parse(r#""\u12""#));
    assert_eq!(what, "truncated \\u escape");
    // Four bytes that end inside a character are a truncated escape too.
    let (what, _, _) = syntax(parse("\"\\u123é\""));
    assert_eq!(what, "truncated \\u escape");
}

#[test]
fn nesting_is_bounded() {
    let deep = "[".repeat(129) + &"]".repeat(129);
    let (what, _, _) = syntax(parse(&deep));
    assert_eq!(what, "nesting deeper than 128");
    let ok = "[".repeat(128) + &"]".repeat(128);
    assert!(parse(&ok).is_ok());
}
