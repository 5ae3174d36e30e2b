use mcfc::mcfd::snbt::{escape_string, parse_compound, Value};

#[test]
fn parses_request_envelope() {
    let input = r#"{id: 7, v: 1, mod: "http", fn: "get", args: ["https://api.example.com/data"]}"#;
    let value = parse_compound(input).expect("should parse");
    let map = value.as_compound().expect("compound");
    assert_eq!(map.get("id").and_then(Value::as_int), Some(7));
    assert_eq!(map.get("mod").and_then(Value::as_str), Some("http"));
    assert_eq!(map.get("fn").and_then(Value::as_str), Some("get"));
    match map.get("args") {
        Some(Value::List(items)) => {
            assert_eq!(items[0].as_str(), Some("https://api.example.com/data"));
        }
        other => panic!("expected list, got {:?}", other),
    }
}

#[test]
fn handles_byte_suffix_and_nested() {
    let input = r#"{id:3b, args:[1, 2, 3], flag: true}"#;
    let value = parse_compound(input).unwrap();
    let map = value.as_compound().unwrap();
    assert_eq!(map.get("id").and_then(Value::as_int), Some(3));
    assert!(matches!(map.get("flag"), Some(Value::Bool(true))));
}

#[test]
fn escapes_for_single_line_command() {
    assert_eq!(escape_string("a\"b\\c"), "\"a\\\"b\\\\c\"");
    assert_eq!(escape_string("line1\nline2"), "\"line1 line2\"");
}

#[test]
fn escaped_strings_read_back() {
    let original = "say \"hi\"\\\tnow";
    let escaped = escape_string(original);
    let value = parse_compound(&escaped).unwrap();
    assert_eq!(value.as_str(), Some("say \"hi\"\\ now"));
}

#[test]
fn scalars_are_classified() {
    let value = parse_compound("[1.5, 2f, 3b, -4, abc, 99999999999999999999, true, 'x']").unwrap();
    match value {
        Value::List(items) => {
            assert!(matches!(&items[0], Value::Float(t) if t == "1.5"));
            assert!(matches!(&items[1], Value::Float(t) if t == "2"));
            assert_eq!(items[2].as_int(), Some(3));
            assert_eq!(items[3].as_int(), Some(-4));
            assert_eq!(items[4].as_str(), Some("abc"));
            assert_eq!(items[5].as_str(), Some("99999999999999999999"));
            assert_eq!(items[6].as_int(), Some(1));
            assert_eq!(items[7].as_str(), Some("x"));
            assert_eq!(items[3].to_arg_string(), "-4");
            assert_eq!(items[6].to_arg_string(), "true");
        }
        other => panic!("expected a list, got {:?}", other),
    }
}

#[test]
fn later_keys_replace_earlier_ones() {
    let value = parse_compound("{a:1,b:2,a:3}").unwrap();
    let map = value.as_compound().unwrap();
    assert_eq!(map.len(), 2);
    assert_eq!(map.get("a").and_then(Value::as_int), Some(3));
    assert!(parse_compound("{a:[}").is_none());
    assert!(parse_compound("{a 1}").is_none());
    let typed = parse_compound("[I; 1, 2]").unwrap();
    assert!(matches!(typed, Value::List(ref items) if items.len() == 2));
}

#[test]
fn floats_read_as_their_whole_part() {
    assert_eq!(Value::Float("1.5".to_string()).as_int(), Some(1));
    assert_eq!(Value::Float("6.0".to_string()).as_int(), Some(6));
    assert_eq!(Value::Float("-2.7".to_string()).as_int(), Some(-2));
    assert_eq!(Value::Float("1e3".to_string()).as_int(), Some(1000));
    assert_eq!(Value::Float("2.5e-1".to_string()).as_int(), Some(0));
    assert_eq!(Value::Float("1e40".to_string()).as_int(), Some(i64::MAX));
    assert_eq!(Value::Float("-inf".to_string()).as_int(), Some(i64::MIN));
    assert_eq!(Value::Float("NaN".to_string()).as_int(), Some(0));
}

#[test]
fn only_one_type_suffix_is_stripped() {
    let value = parse_compound("{a: 5bb, b: 3b}").unwrap();
    let map = value.as_compound().unwrap();
    assert!(matches!(map.get("a"), Some(Value::Str(s)) if s == "5bb"));
    assert!(matches!(map.get("b"), Some(Value::Int(3))));
}

#[test]
fn escaped_field_reads_back() {
    let text = format!("{{k:{}}}", escape_string("say \"hi\" \\ now"));
    let value = parse_compound(&text).unwrap();
    let map = value.as_compound().unwrap();
    assert!(matches!(map.get("k"), Some(Value::Str(s)) if s == "say \"hi\" \\ now"));
}
