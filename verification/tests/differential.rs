use blazingly_json::access::NumberClass;
use blazingly_json::de::{Cursor, Deserializer};
use blazingly_json::map::ObjectMap;
use blazingly_json::number::Number;
use blazingly_json::ser::Serializer;
use blazingly_json::Value;
use std::borrow::Cow;

const VALID_FIXTURES: &[&str] = &[
    "null",
    "true",
    "false",
    "0",
    "-0",
    "18446744073709551615",
    "-9223372036854775808",
    "1.25e-3",
    r#""""#,
    r#""plain ASCII""#,
    r#""escaped\nline\t\u20ac""#,
    r#""surrogate \ud83d\ude80""#,
    "[]",
    "{}",
    r#"{"jsonrpc":"2.0","id":1,"method":"ping","params":{}}"#,
    r#"{"a":[null,true,false,1,-2,3.5,"x"],"b":{"c":"d"}}"#,
];

const INVALID_FIXTURES: &[&str] = &[
    "",
    "nul",
    "True",
    "01",
    "-",
    "1.",
    "1e",
    "1e+",
    "[1,]",
    r#"{"a":1,}"#,
    r#"{"a" 1}"#,
    r#""unterminated"#,
    "\"control\ncharacter\"",
    r#""\x""#,
    r#""\ud800""#,
    r#""\udc00""#,
    "null true",
];

fn accepts(input: &str) -> bool {
    let mut parser = Deserializer::from_str(input);
    parser.skip_value().and_then(|()| parser.end()).is_ok()
}

fn capture(input: &str) -> Option<&str> {
    let mut parser = Deserializer::from_str(input);
    let raw = parser.capture_raw().ok()?;
    parser.end().ok()?;
    Some(raw)
}

fn object(entries: Vec<(&str, Value)>) -> Value {
    let mut map = ObjectMap::new();
    for (key, value) in entries {
        map.insert(key.to_string(), value);
    }
    Value::Object(map)
}

fn number(input: &str) -> NumberClass {
    let mut parser = Deserializer::from_str(input);
    let class = parser.parse_number().unwrap().class();
    parser.end().unwrap();
    class
}

#[test]
fn valid_value_corpus_matches_serde_json() {
    for fixture in VALID_FIXTURES {
        assert!(accepts(fixture), "blazingly-json rejected {fixture:?}");
        let reference: serde_json::Value = serde_json::from_str(fixture).unwrap();
        let reference_raw: &serde_json::value::RawValue = serde_json::from_str(fixture).unwrap();
        assert_eq!(capture(fixture), Some(reference_raw.get()), "fixture: {fixture}");

        let reencoded = serde_json::to_string(&reference).unwrap();
        assert!(accepts(&reencoded), "fixture: {fixture}");
    }
}

#[test]
fn invalid_value_corpus_is_rejected_by_both_engines() {
    for fixture in INVALID_FIXTURES {
        assert!(!accepts(fixture), "blazingly-json accepted {fixture:?}");
        assert!(
            serde_json::from_str::<serde_json::Value>(fixture).is_err(),
            "serde_json accepted {fixture:?}"
        );
    }
}

#[test]
fn borrowed_strings_stay_borrowed_when_unescaped() {
    let input = r#"{"name":"query_graph"}"#;
    let mut name = None;
    let mut cursor = Cursor::from_str(input);
    cursor
        .object(|object| {
            while let Some(field) = object.next_field()? {
                name = Some(field.string()?);
            }
            Ok(())
        })
        .unwrap();
    cursor.end().unwrap();
    let name = match name.unwrap() {
        Cow::Borrowed(name) => name,
        Cow::Owned(_) => panic!("an unescaped string must be borrowed"),
    };
    assert_eq!(name, "query_graph");
    let start = input.as_ptr() as usize;
    let end = start + input.len();
    let pointer = name.as_ptr() as usize;
    assert!((start..end).contains(&pointer));
}

#[test]
fn value_mutation_pointer_and_index_surface_matches_consumers() {
    let mut value = object(vec![(
        "result",
        object(vec![
            (
                "items",
                Value::Array(vec![
                    object(vec![("id", Value::from(1_i64))]),
                    object(vec![("id", Value::from(2_i64))]),
                ]),
            ),
            ("ok", Value::Bool(true)),
        ]),
    )]);
    assert_eq!(value.pointer("/result/items/1/id"), Some(&Value::from(2_i64)));
    *value.pointer_mut("/result/items/0/id").unwrap() = Value::from(9_i64);
    let first_id = value
        .get("result")
        .and_then(|result| result.get("items"))
        .and_then(|items| items.get_index(0))
        .and_then(|item| item.get("id"))
        .and_then(Value::as_i64);
    assert_eq!(first_id, Some(9));
    assert!(value.get("missing").map_or(true, Value::is_null));
    assert_eq!(value.pointer("/result/ok").and_then(Value::as_bool), Some(true));
}

#[test]
fn syntax_errors_report_a_location() {
    let mut parser = Deserializer::from_str("{\n  \"key\": ]");
    let error = parser.skip_value().unwrap_err();
    assert_eq!(error.line(), 2);
    assert!(error.column() > 0);
}

#[test]
fn numeric_representation_matches_the_supported_serde_json_domain() {
    let constructed = Number::from_i64(1);
    let parsed = match number("1") {
        NumberClass::Unsigned(value) => Number::from_u64(value),
        other => panic!("`1` read as {other:?}"),
    };
    assert_eq!(constructed, parsed);
    assert!(parsed.is_i64());
    assert!(parsed.is_u64());
    assert!(!parsed.is_f64());

    assert_eq!(number("9007199254740993"), NumberClass::Unsigned(9007199254740993));
    assert_eq!(number("9007199254740992.0"), NumberClass::Float);

    assert_eq!(number("-0"), NumberClass::Float);
    let reference: serde_json::Value = serde_json::from_str("-0").unwrap();
    assert!(reference.is_f64());
}

#[test]
fn pretty_output_matches_serde_json_for_consumer_shapes() {
    fn write(serializer: &mut Serializer<impl blazingly_json::Formatter>) {
        let mut root = serializer.begin_map(Some(2));
        root.field(serializer, "jsonrpc").unwrap();
        serializer.write_string("2.0");
        root.field(serializer, "result").unwrap();
        let mut result = serializer.begin_map(Some(2));
        result.field(serializer, "items").unwrap();
        let mut items = serializer.begin_seq(Some(2));
        items.element(serializer).unwrap();
        serializer.write_u64(1);
        items.element(serializer).unwrap();
        serializer.write_u64(2);
        items.finish(serializer).unwrap();
        result.field(serializer, "ok").unwrap();
        serializer.write_bool(true);
        result.finish(serializer).unwrap();
        root.finish(serializer).unwrap();
    }

    let mut pretty = Serializer::pretty(Vec::new());
    write(&mut pretty);
    let ours = String::from_utf8(pretty.into_inner()).unwrap();

    let mut compact = Serializer::new(Vec::new());
    write(&mut compact);
    let compact = String::from_utf8(compact.into_inner()).unwrap();
    let reference_value: serde_json::Value = serde_json::from_str(&compact).unwrap();
    let reference = serde_json::to_string_pretty(&reference_value).unwrap();
    assert_eq!(ours, reference);
}

#[test]
fn borrows_exact_raw_values_and_defers_typed_work() {
    let input = r#"{"jsonrpc":"2.0","id":"req-7","method":"tools/call","ignored":[1,{"x":"y"}],"params": { "name":"query_graph", "limit":20 }}"#;
    let mut jsonrpc = None;
    let mut id = None;
    let mut method = None;
    let mut params = None;
    let mut cursor = Cursor::from_str(input);
    cursor
        .object(|request| {
            while let Some(field) = request.next_field()? {
                match field.name() {
                    "jsonrpc" => jsonrpc = Some(field.string()?),
                    "id" => id = Some(field.raw()?),
                    "method" => method = Some(field.string()?),
                    "params" => params = Some(field.raw()?),
                    _ => field.skip()?,
                }
            }
            Ok(())
        })
        .unwrap();
    cursor.end().unwrap();

    assert_eq!(jsonrpc, Some(Cow::Borrowed("2.0")));
    assert_eq!(id.unwrap().get(), r#""req-7""#);
    assert_eq!(method, Some(Cow::Borrowed("tools/call")));
    let params = params.unwrap();
    assert_eq!(params.get(), r#"{ "name":"query_graph", "limit":20 }"#);

    let mut name = None;
    let mut limit = None;
    let mut deferred = Cursor::from_str(params.get());
    deferred
        .object(|object| {
            while let Some(field) = object.next_field()? {
                match field.name() {
                    "name" => name = Some(field.string()?),
                    "limit" => {
                        let raw = field.raw()?;
                        let mut parser = Deserializer::from_str(raw.get());
                        limit = Some(parser.parse_u64_value()?);
                    }
                    _ => field.skip()?,
                }
            }
            Ok(())
        })
        .unwrap();
    deferred.end().unwrap();
    assert_eq!(name, Some(Cow::Borrowed("query_graph")));
    assert_eq!(limit, Some(20));
}

#[test]
fn raw_capture_validates_nested_json_without_allocating_a_dom() {
    for malformed in [
        r#"{"value":[1,]}"#,
        r#"{"value":{"key":}}"#,
        r#"{"value":"\uD800"}"#,
        r#"{"value":"line
break"}"#,
    ] {
        assert!(capture(malformed).is_none(), "{malformed:?} must be rejected");
    }
}

#[test]
fn raw_capture_matches_serde_json_for_supported_values() {
    for fixture in [
        "null",
        "true",
        "-9223372036854775808",
        r#""escaped\ntext \u2764""#,
        r#"[1,2,{"nested":[false,null]}]"#,
        r#"{"query":"entry points","limit":20,"include_source":true}"#,
    ] {
        let ours = capture(fixture).unwrap();
        let reference = serde_json::from_str::<&serde_json::value::RawValue>(fixture).unwrap();
        assert_eq!(ours, reference.get(), "fixture: {fixture}");
    }
}

#[test]
fn strict_raw_fast_paths_fall_back_without_changing_semantics() {
    let cases = [
        "[]",
        "[0,-0,1.25,3e8,-4.5E-2]",
        r#"[{"id":1,"ok":true,"name":"a"},{"id":2,"ok":false,"name":"b"}]"#,
        r#"[{"escaped":"line\nbreak","nested":[1,2,3]}]"#,
        r#"[ { "id": 1, "nested": { "x": true } } ]"#,
        "[01]",
        r#"[{"id":1,}]"#,
        r#"[{"unterminated":"value}]"#,
    ];

    for input in cases {
        let ours = capture(input);
        let reference = serde_json::from_str::<&serde_json::value::RawValue>(input);
        assert_eq!(ours.is_some(), reference.is_ok(), "input: {input:?}");
        if let (Some(ours), Ok(reference)) = (ours, reference) {
            assert_eq!(ours, reference.get(), "input: {input:?}");
        }
    }
}
