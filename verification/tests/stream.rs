use std::collections::HashMap;

use phig::de::{invalid_number, parse_bool, parse_char, StreamDeserializer};
use phig::fmt::Formatter;
use phig::ser::StreamSerializer;
use phig::{from_str, Event, Value};

fn s(v: &str) -> Value {
    Value::String(v.to_string())
}

fn msg(e: &phig::Error) -> String {
    e.msg().unwrap().to_string()
}

fn written(ser: StreamSerializer) -> String {
    String::from_utf8(ser.into_inner()).unwrap()
}

#[test]
fn hashmap() {
    let mut de = StreamDeserializer::new(b"a 1\nb 2\nc 3");
    de.begin_map().unwrap();
    let mut m: HashMap<String, String> = HashMap::new();
    while let Some(k) = de.next_key().unwrap() {
        let v = de.take_string().unwrap();
        m.insert(k, v);
    }
    assert_eq!(m.len(), 3);
    assert_eq!(m["a"], "1");
    assert_eq!(m["b"], "2");
    assert_eq!(m["c"], "3");
}

#[test]
fn from_str_value_parse() {
    let v: Value = "name foo\ncount 42".parse().unwrap();
    assert_eq!(v.index_by_key("name").as_str(), Some("foo"));
    assert_eq!(v.index_by_key("count").as_str(), Some("42"));
}

#[test]
fn to_value() {
    let v: Value = from_str("name foo\ntags [a b]").unwrap();
    assert_eq!(
        v,
        Value::Dict(vec![
            ("name".into(), s("foo")),
            ("tags".into(), Value::List(vec![s("a"), s("b")])),
        ])
    );
}

#[test]
fn value_roundtrip() {
    let input = "name foo\ntags [a b c]\nnested { x 1; y 2 }";
    let v: Value = from_str(input).unwrap();

    assert_eq!(v.index_by_key("name").as_str(), Some("foo"));
    assert_eq!(v.index_by_key("tags").index_by_position(0).as_str(), Some("a"));
    assert_eq!(v.index_by_key("nested").index_by_key("x").as_str(), Some("1"));

    let mut f = Formatter::new(Vec::new());
    f.write_value(&v).unwrap();
    let serialized = String::from_utf8(f.into_inner()).unwrap();
    let v2: Value = from_str(&serialized).unwrap();
    assert_eq!(v, v2);
}

#[test]
fn empty_map() {
    let mut ser = StreamSerializer::new(Vec::new());
    ser.begin_map().unwrap();
    ser.end_map().unwrap();
    assert_eq!(written(ser), "");
}

#[test]
fn top_level_string_rejected() {
    let mut ser = StreamSerializer::new(Vec::new());
    assert!(ser.scalar("hello".to_string()).is_err());
}

#[test]
fn top_level_list_rejected() {
    let mut ser = StreamSerializer::new(Vec::new());
    assert!(ser.begin_list().is_err());
}

#[test]
fn top_level_error_message() {
    let ser = StreamSerializer::new(Vec::new());
    let e = ser.require_nested().unwrap_err();
    assert_eq!(msg(&e), "top-level value must be a map");
    assert_eq!(e.pos(), None);
}

#[test]
fn serializer_flat_map() {
    let mut ser = StreamSerializer::new(Vec::new());
    ser.begin_map().unwrap();
    ser.key("name".to_string()).unwrap();
    ser.scalar("app".to_string()).unwrap();
    ser.key("port".to_string()).unwrap();
    ser.scalar("8080".to_string()).unwrap();
    ser.end_map().unwrap();
    assert_eq!(ser.depth(), 0);
    assert_eq!(written(ser), "name app\nport 8080\n");
}

#[test]
fn serializer_nested_map() {
    let mut ser = StreamSerializer::new(Vec::new());
    ser.begin_map().unwrap();
    ser.key("server".to_string()).unwrap();
    ser.begin_map().unwrap();
    ser.key("host".to_string()).unwrap();
    ser.scalar("localhost".to_string()).unwrap();
    ser.key("port".to_string()).unwrap();
    ser.scalar("3000".to_string()).unwrap();
    ser.end_map().unwrap();
    ser.end_map().unwrap();
    assert_eq!(written(ser), "server {\n  host localhost\n  port 3000\n}\n");
}

#[test]
fn serializer_list_and_quoting() {
    let mut ser = StreamSerializer::new(Vec::new());
    ser.begin_map().unwrap();
    ser.key("tags".to_string()).unwrap();
    ser.begin_list().unwrap();
    ser.scalar("web".to_string()).unwrap();
    ser.scalar("prod".to_string()).unwrap();
    ser.end_list().unwrap();
    ser.key("msg".to_string()).unwrap();
    ser.scalar("line1\nline2".to_string()).unwrap();
    ser.key("empty".to_string()).unwrap();
    ser.scalar(String::new()).unwrap();
    ser.key("nbsp".to_string()).unwrap();
    ser.scalar("foo\u{00a0}bar".to_string()).unwrap();
    ser.end_map().unwrap();
    assert_eq!(
        written(ser),
        "tags [web prod]\nmsg \"line1\\nline2\"\nempty \"\"\nnbsp \"foo\u{00a0}bar\"\n"
    );
}

#[test]
fn serializer_variant() {
    let mut ser = StreamSerializer::new(Vec::new());
    assert!(ser.begin_variant("Debug").is_err());
    ser.begin_map().unwrap();
    ser.key("level".to_string()).unwrap();
    ser.begin_variant("Custom").unwrap();
    ser.scalar("x".to_string()).unwrap();
    ser.end_map().unwrap();
    ser.end_map().unwrap();
    assert_eq!(written(ser), "level {\n  Custom x\n}\n");
}

#[test]
fn deserializer_peek_then_take() {
    let mut de = StreamDeserializer::new(b"a 1");
    assert_eq!(de.peek_event().unwrap(), Some(&Event::StartMap));
    assert_eq!(de.peek_event().unwrap(), Some(&Event::StartMap));
    assert_eq!(de.take_event().unwrap(), Event::StartMap);
    assert_eq!(de.take_event().unwrap(), Event::Key("a".into()));
    assert_eq!(de.take_event().unwrap(), Event::String("1".into()));
    assert_eq!(de.take_event().unwrap(), Event::EndMap);
    assert_eq!(de.peek_event().unwrap(), None);
    let e = de.take_event().unwrap_err();
    assert_eq!(msg(&e), "unexpected end of input");
    assert_eq!(e.pos(), None);
}

#[test]
fn deserializer_parse_error_passes_through() {
    let mut de = StreamDeserializer::new(b"x {");
    de.begin_map().unwrap();
    assert_eq!(de.next_key().unwrap(), Some("x".to_string()));
    de.begin_map().unwrap();
    let e = de.next_key().unwrap_err();
    assert!(e.pos().is_some());
}

#[test]
fn deserializer_skip_value() {
    let mut de = StreamDeserializer::new(b"a { b [1 [2 3] {c d}] }\nz 9");
    de.begin_map().unwrap();
    assert_eq!(de.next_key().unwrap(), Some("a".to_string()));
    de.skip_value().unwrap();
    assert_eq!(de.next_key().unwrap(), Some("z".to_string()));
    de.skip_value().unwrap();
    assert_eq!(de.next_key().unwrap(), None);
}

#[test]
fn deserializer_skip_rejects_key() {
    let mut de = StreamDeserializer::new(b"a 1");
    de.begin_map().unwrap();
    let e = de.skip_value().unwrap_err();
    assert_eq!(msg(&e), "unexpected event");
}

#[test]
fn deserializer_expectations() {
    let mut de = StreamDeserializer::new(b"a 1");
    assert_eq!(msg(&de.begin_list().unwrap_err()), "expected list");
    let mut de = StreamDeserializer::new(b"a 1");
    de.begin_map().unwrap();
    assert_eq!(msg(&de.begin_map().unwrap_err()), "expected map");
    let mut de = StreamDeserializer::new(b"a 1");
    de.begin_map().unwrap();
    assert_eq!(msg(&de.take_string().unwrap_err()), "expected string");
    let mut de = StreamDeserializer::new(b"a 1");
    de.begin_map().unwrap();
    de.next_key().unwrap();
    assert_eq!(msg(&de.next_key().unwrap_err()), "expected key or end of map");
    let mut de = StreamDeserializer::new(b"a 1");
    de.begin_map().unwrap();
    assert_eq!(msg(&de.take_value().unwrap_err()), "unexpected event");
}

#[test]
fn deserializer_list_elements() {
    let mut de = StreamDeserializer::new(b"tags [web prod v2]");
    de.begin_map().unwrap();
    assert_eq!(de.next_key().unwrap(), Some("tags".to_string()));
    de.begin_list().unwrap();
    let mut items = Vec::new();
    while de.next_element().unwrap() {
        items.push(de.take_string().unwrap());
    }
    assert_eq!(items, vec!["web", "prod", "v2"]);
    assert_eq!(de.next_key().unwrap(), None);
}

#[test]
fn deserializer_list_end_of_input() {
    let mut de = StreamDeserializer::new(b"a 1");
    de.begin_map().unwrap();
    de.next_key().unwrap();
    de.take_string().unwrap();
    de.take_event().unwrap();
    assert_eq!(msg(&de.next_element().unwrap_err()), "unexpected end of input in list");
}

#[test]
fn deserializer_take_value() {
    let mut de = StreamDeserializer::new(b"a [x]");
    assert_eq!(de.take_value().unwrap(), Event::StartMap);
    de.next_key().unwrap();
    assert_eq!(de.take_value().unwrap(), Event::StartList);
    assert_eq!(de.take_value().unwrap(), Event::String("x".into()));
}

#[test]
fn deserializer_enums() {
    let mut de = StreamDeserializer::new(b"level debug\nmode { custom 3 }\nbad [x]");
    de.begin_map().unwrap();
    de.next_key().unwrap();
    assert_eq!(de.enum_start().unwrap(), ("debug".to_string(), false));
    de.next_key().unwrap();
    assert_eq!(de.enum_start().unwrap(), ("custom".to_string(), true));
    assert_eq!(de.take_string().unwrap(), "3");
    de.enum_end().unwrap();
    de.next_key().unwrap();
    assert_eq!(msg(&de.enum_start().unwrap_err()), "expected string or map for enum");
}

#[test]
fn deserializer_enum_map_needs_end() {
    let mut de = StreamDeserializer::new(b"m { a 1; b 2 }");
    de.begin_map().unwrap();
    de.next_key().unwrap();
    assert_eq!(de.enum_start().unwrap(), ("a".to_string(), true));
    de.take_string().unwrap();
    assert_eq!(msg(&de.enum_end().unwrap_err()), "expected end of enum map");
}

#[test]
fn bools_and_chars() {
    assert_eq!(parse_bool("true").unwrap(), true);
    assert_eq!(parse_bool("false").unwrap(), false);
    assert_eq!(msg(&parse_bool("yes").unwrap_err()), "expected bool, got 'yes'");
    assert_eq!(parse_char("x").unwrap(), 'x');
    assert_eq!(parse_char("\u{1f331}").unwrap(), '\u{1f331}');
    assert_eq!(msg(&parse_char("xy").unwrap_err()), "expected single character");
    assert_eq!(msg(&parse_char("").unwrap_err()), "expected single character");
}

#[test]
fn invalid_number_message() {
    let e = invalid_number("abc", "invalid digit found in string");
    assert_eq!(msg(&e), "invalid number 'abc': invalid digit found in string");
    assert_eq!(e.pos(), None);
}
