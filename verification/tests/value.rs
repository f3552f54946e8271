use phig::fmt::Formatter;
use phig::{parse_to_value, Value};

fn s(v: &str) -> Value {
    Value::String(v.to_string())
}

fn format(v: &Value) -> Vec<u8> {
    let mut f = Formatter::new(Vec::new());
    f.write_value(v).unwrap();
    f.into_inner()
}

fn sample() -> Value {
    Value::Dict(vec![
        ("name".into(), s("app")),
        ("empty".into(), s("")),
        ("spaced key".into(), s("hello world")),
        ("escapes".into(), s("quote\" back\\ nl\n cr\r tab\t nul\0 bell\u{7} del\u{7f}")),
        ("unicode".into(), s("\u{1f331} caf\u{e9} nbsp\u{a0}x")),
        ("delims".into(), s("#[]{};'")),
        ("tags".into(), Value::List(vec![s("a"), s("b c"), s("")])),
        ("nothing".into(), Value::List(vec![])),
        ("void".into(), Value::Dict(vec![])),
        (
            "mixed".into(),
            Value::List(vec![
                s("x"),
                Value::Dict(vec![("k".into(), s("v")), ("l".into(), Value::List(vec![s("1")]))]),
                Value::List(vec![Value::List(vec![]), Value::Dict(vec![])]),
            ]),
        ),
        (
            "server".into(),
            Value::Dict(vec![
                ("host".into(), s("localhost")),
                ("tls".into(), Value::Dict(vec![("cert".into(), s("/etc/ssl/cert.pem"))])),
            ]),
        ),
    ])
}

#[test]
fn roundtrip_of_nested_values() {
    let v = sample();
    let text = format(&v);
    assert!(String::from_utf8(text.clone()).is_ok());
    assert_eq!(parse_to_value(&text).unwrap(), v);
}

#[test]
fn roundtrip_of_empty_document() {
    let v = Value::Dict(vec![]);
    let text = format(&v);
    assert!(text.is_empty());
    assert_eq!(parse_to_value(&text).unwrap(), v);
}

#[test]
fn formatted_text_shape() {
    let v = Value::Dict(vec![
        ("tags".into(), Value::List(vec![s("web"), s("prod")])),
        (
            "rows".into(),
            Value::List(vec![Value::Dict(vec![("a".into(), s("1"))]), s("z")]),
        ),
        ("ctl".into(), s("a \u{1}")),
    ]);
    let text = String::from_utf8(format(&v)).unwrap();
    assert_eq!(
        text,
        "tags [web prod]\nrows [\n  {\n    a 1\n  }\n  z\n]\nctl \"a \\u{1}\"\n"
    );
}

#[test]
fn bom_first_key_is_not_read_back() {
    let v = Value::Dict(vec![("\u{feff}a".into(), s("x"))]);
    let text = format(&v);
    assert_eq!(&text[..3], &[0xEF, 0xBB, 0xBF]);
    let back = parse_to_value(&text).unwrap();
    assert_eq!(back, Value::Dict(vec![("a".into(), s("x"))]));
}

#[test]
fn duplicate_keys_are_not_read_back() {
    let v = Value::Dict(vec![("a".into(), s("1")), ("a".into(), s("2"))]);
    let text = format(&v);
    let e = parse_to_value(&text).unwrap_err();
    assert_eq!(e.msg(), Some("duplicate key 'a'"));
}

#[test]
fn typed_access() {
    assert!(Value::Dict(vec![]).require_map().is_ok());
    let e = s("x").require_map().unwrap_err();
    assert_eq!(e.msg(), Some("top-level value must be a map"));
    assert!(Value::List(vec![]).require_map().is_err());

    assert_eq!(s("42").into_string("expected string for number").unwrap(), "42");
    let e = Value::List(vec![]).into_string("expected string for bool").unwrap_err();
    assert_eq!(e.msg(), Some("expected string for bool"));
}

#[test]
fn enum_variants_from_values() {
    assert_eq!(s("debug").into_variant().unwrap(), ("debug".to_string(), None));
    let (name, content) = Value::Dict(vec![("custom".into(), s("3"))]).into_variant().unwrap();
    assert_eq!(name, "custom");
    assert_eq!(content, Some(s("3")));
    let e = Value::Dict(vec![("a".into(), s("1")), ("b".into(), s("2"))])
        .into_variant()
        .unwrap_err();
    assert_eq!(e.msg(), Some("expected single-entry map for enum"));
    let e = Value::List(vec![]).into_variant().unwrap_err();
    assert_eq!(e.msg(), Some("expected string or map for enum"));
}

#[test]
fn value_accessors() {
    let v = sample();
    assert_eq!(v.get("name").and_then(|x| x.as_str()), Some("app"));
    assert_eq!(v.get("tags").and_then(|x| x.as_list()).map(|l| l.len()), Some(3));
    assert_eq!(v.get("void").and_then(|x| x.as_map()).map(|m| m.len()), Some(0));
    assert!(v.get("missing").is_none());
    assert!(s("x").get("name").is_none());
    assert!(s("x").as_list().is_none());
    assert!(Value::List(vec![]).as_map().is_none());
    assert!(Value::List(vec![]).as_str().is_none());
}

#[test]
fn get_finds_first_match() {
    let v = Value::Dict(vec![("k".into(), s("first")), ("k".into(), s("second"))]);
    assert_eq!(v.get("k").and_then(|x| x.as_str()), Some("first"));
}

#[test]
fn error_accessors_and_display() {
    let e = phig::Error::new("boom");
    assert_eq!(e.msg(), Some("boom"));
    assert_eq!(e.pos(), None);
    assert_eq!(e.display().as_deref(), Some("boom"));
    assert!(e.into_io().is_none());

    let e = phig::Error::at("unclosed '{'".to_string(), 42);
    assert_eq!(e.pos(), Some(42));
    assert_eq!(e.display().as_deref(), Some("at position 42: unclosed '{'"));

    let io = std::io::Error::new(std::io::ErrorKind::Other, "disk");
    let e = phig::Error::from_io(io);
    assert_eq!(e.msg(), None);
    assert_eq!(e.pos(), None);
    assert!(e.display().is_none());
    assert_eq!(e.into_io().map(|x| x.kind()), Some(std::io::ErrorKind::Other));
}

#[test]
fn parse_error_display_has_position() {
    let e = parse_to_value(b"x {").unwrap_err();
    let shown = e.display().unwrap();
    assert!(shown.starts_with("at position "));
    assert!(shown.ends_with(e.msg().unwrap()));
}

#[test]
fn clone_is_deep_and_equal() {
    let v = sample();
    let c = v.clone();
    assert_eq!(c, v);
    let d = phig::value::clone_value(&v);
    assert_eq!(d, v);
}
