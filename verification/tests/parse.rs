use phig::{parse_to_value, Error, Event, PhigParser, Value};

fn p(input: &[u8]) -> Result<Value, Error> {
    parse_to_value(input)
}

fn s(v: &str) -> Value {
    Value::String(v.to_string())
}

fn text(v: &Value, key: &str) -> Option<String> {
    v.get(key).and_then(|x| x.as_str()).map(|x| x.to_string())
}

#[test]
fn bare_pairs() {
    let v = p("name foo".as_bytes()).unwrap();
    assert_eq!(v, Value::Dict(vec![("name".into(), s("foo"))]));
}

#[test]
fn multiple_pairs() {
    let v = p("a 1\nb 2".as_bytes()).unwrap();
    assert_eq!(v, Value::Dict(vec![("a".into(), s("1")), ("b".into(), s("2"))]));
}

#[test]
fn semicolon_sep() {
    let v = p("a 1; b 2".as_bytes()).unwrap();
    assert_eq!(v, Value::Dict(vec![("a".into(), s("1")), ("b".into(), s("2"))]));
}

#[test]
fn nested_map() {
    let v = p("x { a 1; b 2 }".as_bytes()).unwrap();
    assert_eq!(
        v,
        Value::Dict(vec![(
            "x".into(),
            Value::Dict(vec![("a".into(), s("1")), ("b".into(), s("2"))])
        )])
    );
}

#[test]
fn list() {
    let v = p("tags [a b c]".as_bytes()).unwrap();
    assert_eq!(
        v,
        Value::Dict(vec![("tags".into(), Value::List(vec![s("a"), s("b"), s("c")]))])
    );
}

#[test]
fn quoted_string() {
    let v = p(r#"msg "hello\nworld""#.as_bytes()).unwrap();
    assert_eq!(v, Value::Dict(vec![("msg".into(), s("hello\nworld"))]));
}

#[test]
fn raw_string() {
    let v = p(r"path 'C:\foo\bar'".as_bytes()).unwrap();
    assert_eq!(v, Value::Dict(vec![("path".into(), s(r"C:\foo\bar"))]));
}

#[test]
fn unicode_escape() {
    let v = p(r#"ch "\u{1f331}""#.as_bytes()).unwrap();
    assert_eq!(v, Value::Dict(vec![("ch".into(), s("\u{1f331}"))]))
}

#[test]
fn comment() {
    let v = p("# header\na 1 # inline\n".as_bytes()).unwrap();
    assert_eq!(v, Value::Dict(vec![("a".into(), s("1"))]));
}

#[test]
fn line_continuation() {
    let v = p("msg \"hello \\\nworld\"".as_bytes()).unwrap();
    assert_eq!(v, Value::Dict(vec![("msg".into(), s("hello world"))]));
}

#[test]
fn empty() {
    let v = p("".as_bytes()).unwrap();
    assert_eq!(v, Value::Dict(vec![]));
}

#[test]
fn whitespace_only() {
    let v = p("  \n\n  ".as_bytes()).unwrap();
    assert_eq!(v, Value::Dict(vec![]));
}

#[test]
fn unclosed_brace() {
    assert!(p("x {".as_bytes()).is_err());
}

#[test]
fn unclosed_bracket() {
    assert!(p("x [".as_bytes()).is_err());
}

#[test]
fn unterminated_string() {
    assert!(p(r#"x "hello"#.as_bytes()).is_err());
}

#[test]
fn invalid_escape() {
    assert!(p(r#"x "\q""#.as_bytes()).is_err());
}

#[test]
fn duplicate_key_toplevel() {
    let e = p("a 1\na 2".as_bytes()).unwrap_err();
    assert!(e.msg().unwrap().contains("duplicate key 'a'"), "{:?}", e);
}

#[test]
fn duplicate_key_nested() {
    let e = p("x { k 1; k 2 }".as_bytes()).unwrap_err();
    assert!(e.msg().unwrap().contains("duplicate key 'k'"), "{:?}", e);
}

#[test]
fn nbsp_not_separator() {
    assert!(p("name\u{00a0}foo".as_bytes()).is_err());
}

#[test]
fn nbsp_in_bare_value() {
    assert!(p("name foo\u{00a0}bar".as_bytes()).is_err());
}

#[test]
fn em_space_in_bare_value() {
    assert!(p("name foo\u{2003}bar".as_bytes()).is_err());
}

#[test]
fn nbsp_in_quoted_ok() {
    let v = p("name \"foo\u{00a0}bar\"".as_bytes()).unwrap();
    assert_eq!(text(&v, "name").as_deref(), Some("foo\u{00a0}bar"));
}

#[test]
fn nbsp_in_raw_ok() {
    let v = p("name 'foo\u{00a0}bar'".as_bytes()).unwrap();
    assert_eq!(text(&v, "name").as_deref(), Some("foo\u{00a0}bar"));
}

#[test]
fn pull_parser_events() {
    let mut parser = PhigParser::new("a 1\nb 2".as_bytes());
    assert_eq!(parser.next().unwrap().unwrap(), Event::StartMap);
    assert_eq!(parser.next().unwrap().unwrap(), Event::Key("a".into()));
    assert_eq!(parser.next().unwrap().unwrap(), Event::String("1".into()));
    assert_eq!(parser.next().unwrap().unwrap(), Event::Key("b".into()));
    assert_eq!(parser.next().unwrap().unwrap(), Event::String("2".into()));
    assert_eq!(parser.next().unwrap().unwrap(), Event::EndMap);
    assert!(parser.next().is_none());
}

#[test]
fn pull_parser_nested() {
    let mut parser = PhigParser::new("x { a 1 }".as_bytes());
    assert_eq!(parser.next().unwrap().unwrap(), Event::StartMap);
    assert_eq!(parser.next().unwrap().unwrap(), Event::Key("x".into()));
    assert_eq!(parser.next().unwrap().unwrap(), Event::StartMap);
    assert_eq!(parser.next().unwrap().unwrap(), Event::Key("a".into()));
    assert_eq!(parser.next().unwrap().unwrap(), Event::String("1".into()));
    assert_eq!(parser.next().unwrap().unwrap(), Event::EndMap);
    assert_eq!(parser.next().unwrap().unwrap(), Event::EndMap);
    assert!(parser.next().is_none());
}

#[test]
fn pull_parser_list() {
    let mut parser = PhigParser::new("tags [a b]".as_bytes());
    assert_eq!(parser.next().unwrap().unwrap(), Event::StartMap);
    assert_eq!(parser.next().unwrap().unwrap(), Event::Key("tags".into()));
    assert_eq!(parser.next().unwrap().unwrap(), Event::StartList);
    assert_eq!(parser.next().unwrap().unwrap(), Event::String("a".into()));
    assert_eq!(parser.next().unwrap().unwrap(), Event::String("b".into()));
    assert_eq!(parser.next().unwrap().unwrap(), Event::EndList);
    assert_eq!(parser.next().unwrap().unwrap(), Event::EndMap);
    assert!(parser.next().is_none());
}

#[test]
fn trailing_semicolon_after_pair_rejected() {
    let e = p(b"a 1;").unwrap_err();
    assert_eq!(e.msg(), Some("expected key after ';'"));
    assert_eq!(e.pos(), Some(4));
    let e = p(b"a 1;\n").unwrap_err();
    assert_eq!(e.msg(), Some("expected key after ';'"));
    assert_eq!(e.pos(), Some(5));
}

#[test]
fn trailing_semicolon_in_nested_map_rejected() {
    let e = p(b"x { a 1; }").unwrap_err();
    assert_eq!(e.msg(), Some("expected key after ';'"));
    assert_eq!(e.pos(), Some(9));
}

#[test]
fn trailing_semicolon_in_list_rejected() {
    let e = p(b"t [a;]").unwrap_err();
    assert_eq!(e.msg(), Some("expected value after ';'"));
    assert_eq!(e.pos(), Some(5));
    let e = p(b"t [a; ]").unwrap_err();
    assert_eq!(e.pos(), Some(6));
}

#[test]
fn semicolons_between_items_and_pairs() {
    let v = p(b"t [a; b;c]; u { x 1; y 2 }").unwrap();
    assert_eq!(
        v,
        Value::Dict(vec![
            ("t".into(), Value::List(vec![s("a"), s("b"), s("c")])),
            ("u".into(), Value::Dict(vec![("x".into(), s("1")), ("y".into(), s("2"))])),
        ])
    );
}
