use blazingly_json::error::ErrorKind;
use blazingly_json::ser::{escape_code, initial_capacity, same_text, Serializer, RAW_VALUE_TOKEN};

fn text(bytes: Vec<u8>) -> String {
    String::from_utf8(bytes).unwrap()
}

fn message(error: blazingly_json::error::Error) -> String {
    match error.into_kind() {
        ErrorKind::Message(message) => message,
        _ => panic!("not a message error"),
    }
}

#[test]
fn strings_escape_quotes_backslashes_and_control_bytes() {
    let mut serializer = Serializer::new(Vec::new());
    serializer.write_string("a\"b\\c\n\t\r\u{8}\u{c}\u{1}\u{1f} é");
    assert_eq!(
        text(serializer.into_inner()),
        r#""a\"b\\c\n\t\r\b\f\u0001\u001f é""#
    );
}

#[test]
fn each_escape_letter_matches_its_byte() {
    assert_eq!(escape_code(b'"'), b'"');
    assert_eq!(escape_code(b'\\'), b'\\');
    assert_eq!(escape_code(0x08), b'b');
    assert_eq!(escape_code(0x0c), b'f');
    assert_eq!(escape_code(0x00), b'u');
    assert_eq!(escape_code(b'/'), 0);
    assert_eq!(escape_code(0xc3), 0);
}

#[test]
fn integers_are_written_in_decimal() {
    let mut serializer = Serializer::new(b"[".to_vec());
    serializer.write_i64(i64::MIN);
    serializer.write(b",");
    serializer.write_u64(u64::MAX);
    serializer.write(b",");
    serializer.write_i64(0);
    serializer.write(b",");
    serializer.write_i128(i128::MIN);
    serializer.write(b",");
    serializer.write_u128(u128::MAX);
    assert_eq!(
        text(serializer.into_inner()),
        "[-9223372036854775808,18446744073709551615,0,-170141183460469231731687303715884105728,340282366920938463463374607431768211455"
    );
}

#[test]
fn integer_keys_are_quoted() {
    let mut serializer = Serializer::new(Vec::new());
    serializer.write_i128_key(-7);
    serializer.write_u128_key(42);
    assert_eq!(text(serializer.into_inner()), r#""-7""42""#);
}

#[test]
fn literals_are_written_as_json_words() {
    let mut serializer = Serializer::new(Vec::new());
    serializer.write_bool(true);
    serializer.write_bool(false);
    serializer.write_null();
    assert_eq!(text(serializer.into_inner()), "truefalsenull");
}

#[test]
fn compact_objects_and_arrays() {
    let mut serializer = Serializer::new(Vec::new());
    let mut object = serializer.begin_map(Some(2));
    object.field(&mut serializer, "items").unwrap();
    let mut items = serializer.begin_seq(Some(2));
    items.element(&mut serializer).unwrap();
    serializer.write_u64(1);
    items.element(&mut serializer).unwrap();
    serializer.write_u64(2);
    items.finish(&mut serializer).unwrap();
    object.field(&mut serializer, "ok").unwrap();
    serializer.write_bool(true);
    object.finish(&mut serializer).unwrap();
    assert_eq!(text(serializer.into_inner()), r#"{"items":[1,2],"ok":true}"#);
}

#[test]
fn pretty_output_indents_two_spaces_per_level() {
    let mut serializer = Serializer::pretty(Vec::new());
    let mut root = serializer.begin_map(None);
    root.field(&mut serializer, "jsonrpc").unwrap();
    serializer.write_string("2.0");
    root.field(&mut serializer, "result").unwrap();
    let mut result = serializer.begin_map(None);
    result.field(&mut serializer, "items").unwrap();
    let mut items = serializer.begin_seq(None);
    items.element(&mut serializer).unwrap();
    serializer.write_u64(1);
    items.element(&mut serializer).unwrap();
    serializer.write_u64(2);
    items.finish(&mut serializer).unwrap();
    result.field(&mut serializer, "ok").unwrap();
    serializer.write_bool(true);
    result.finish(&mut serializer).unwrap();
    root.finish(&mut serializer).unwrap();
    assert_eq!(
        text(serializer.into_inner()),
        "{\n  \"jsonrpc\": \"2.0\",\n  \"result\": {\n    \"items\": [\n      1,\n      2\n    ],\n    \"ok\": true\n  }\n}"
    );
}

#[test]
fn empty_compounds_close_without_indentation() {
    let mut serializer = Serializer::pretty(Vec::new());
    let seq = serializer.begin_seq(Some(0));
    seq.finish(&mut serializer).unwrap();
    let map = serializer.begin_map(Some(0));
    map.finish(&mut serializer).unwrap();
    assert_eq!(text(serializer.into_inner()), "[]{}");
}

#[test]
fn enum_variants_are_wrapped_in_an_object() {
    let mut serializer = Serializer::new(Vec::new());
    let mut progress = serializer.begin_struct_variant("Progress", 2);
    progress.field(&mut serializer, "current").unwrap();
    serializer.write_u64(1);
    progress.field(&mut serializer, "total").unwrap();
    serializer.write_u64(3);
    progress.finish(&mut serializer).unwrap();
    serializer.write(b" ");
    let mut pair = serializer.begin_tuple_variant("Pair", 2);
    pair.element(&mut serializer).unwrap();
    serializer.write_u64(1);
    pair.element(&mut serializer).unwrap();
    serializer.write_u64(2);
    pair.finish(&mut serializer).unwrap();
    serializer.write(b" ");
    serializer.begin_newtype_variant("Failed");
    serializer.write_string("boom");
    serializer.end_newtype_variant();
    assert_eq!(
        text(serializer.into_inner()),
        r#"{"Progress":{"current":1,"total":3}} {"Pair":[1,2]} {"Failed":"boom"}"#
    );
}

#[test]
fn map_entries_need_a_key_before_each_value() {
    let mut serializer = Serializer::new(Vec::new());
    let mut map = serializer.begin_map(None);
    assert_eq!(message(map.value().unwrap_err()), "map value has no key");
    map.begin_key(&mut serializer).unwrap();
    serializer.write_string("k");
    map.end_key(&mut serializer);
    map.value().unwrap();
    serializer.write_u64(1);
    map.begin_key(&mut serializer).unwrap();
    serializer.write_string("dangling");
    map.end_key(&mut serializer);
    assert_eq!(message(map.finish(&mut serializer).unwrap_err()), "map key has no value");
    assert_eq!(text(serializer.into_inner()), r#"{"k":1,"dangling":"#);
}

#[test]
fn a_raw_value_is_written_verbatim_once() {
    let mut serializer = Serializer::new(b"{\"payload\":".to_vec());
    let mut raw = serializer.begin_struct(RAW_VALUE_TOKEN, 1);
    assert_eq!(
        message(raw.field(&mut serializer, "other").unwrap_err()),
        "invalid RawValue serialization"
    );
    raw.field(&mut serializer, RAW_VALUE_TOKEN).unwrap();
    serializer.write(br#"{ "x": [1, 2] }"#);
    assert_eq!(
        message(raw.field(&mut serializer, RAW_VALUE_TOKEN).unwrap_err()),
        "invalid RawValue serialization"
    );
    assert_eq!(
        message(raw.element(&mut serializer).unwrap_err()),
        "invalid RawValue serialization"
    );
    raw.finish(&mut serializer).unwrap();
    serializer.write(b"}");
    assert_eq!(text(serializer.into_inner()), r#"{"payload":{ "x": [1, 2] }}"#);
}

#[test]
fn a_raw_value_without_text_is_refused() {
    let mut serializer = Serializer::new(Vec::new());
    let raw = serializer.begin_struct(RAW_VALUE_TOKEN, 1);
    assert_eq!(
        message(raw.finish(&mut serializer).unwrap_err()),
        "invalid RawValue serialization"
    );
}

#[test]
fn text_comparison_is_exact() {
    assert!(same_text("abc", "abc"));
    assert!(!same_text("abc", "abd"));
    assert!(!same_text("abc", "ab"));
}

#[test]
fn initial_capacity_follows_the_size_of_wide_values() {
    assert_eq!(initial_capacity(false, 10_000, 128), 128);
    assert_eq!(initial_capacity(true, 10, 128), 128);
    assert_eq!(initial_capacity(true, 1_000, 128), 1_002);
    assert_eq!(initial_capacity(true, 4_094, 128), 4_096);
    assert_eq!(initial_capacity(true, 4_095, 128), 128);
    assert_eq!(initial_capacity(true, usize::MAX, 256), 256);
}
