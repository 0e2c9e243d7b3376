use blazingly_json::error::{ErrorCode, ErrorKind};
use blazingly_json::de::{Cursor, Deserializer};
use blazingly_json::raw_value::RawValue;
use blazingly_json::ser::{Serializer, RAW_VALUE_TOKEN};

#[test]
fn from_string_keeps_the_value_without_surrounding_whitespace() {
    for (input, expected) in [
        ("null", "null"),
        (" true ", "true"),
        ("\n{\"a\": 1, \"b\": [2, 3]}\t", "{\"a\": 1, \"b\": [2, 3]}"),
        ("\"escaped\\nstring\"", "\"escaped\\nstring\""),
        ("-12.5e3", "-12.5e3"),
    ] {
        let raw = RawValue::from_string(input.to_string()).unwrap();
        assert_eq!(raw.get(), expected, "input: {input:?}");
    }
}

#[test]
fn raw_value_rejects_invalid_json_and_trailing_data() {
    for input in ["", "{", "[1,]", "true false", "\"unterminated", "null trailing"] {
        assert!(RawValue::from_string(input.to_string()).is_err(), "input: {input:?}");
        let mut parser = Deserializer::from_str(input);
        assert!(parser.capture_raw().and_then(|_| parser.end()).is_err(), "input: {input:?}");
    }
    let invalid_utf8 = [b'"', 0xff, b'"'];
    assert!(Deserializer::from_slice(&invalid_utf8).capture_raw().is_err());
    let error = RawValue::from_string("true false".to_string()).unwrap_err();
    assert_eq!(error.column(), 6);
    match error.into_kind() {
        ErrorKind::Syntax(code) => assert_eq!(code, ErrorCode::TrailingCharacters),
        _ => panic!("not a syntax error"),
    }
}

#[test]
fn constants_clone_default_and_box_conversion_match_expected_values() {
    assert_eq!(RawValue::null().get(), "null");
    assert_eq!(RawValue::true_value().get(), "true");
    assert_eq!(RawValue::false_value().get(), "false");
    assert_eq!(RawValue::default().get(), "null");

    let raw = RawValue::from_string(r#"{"x":1}"#.to_owned()).unwrap();
    let cloned = raw.clone();
    assert_eq!(cloned.get(), raw.get());
    assert_ne!(cloned.get().as_ptr(), raw.get().as_ptr());

    let boxed_str: Box<str> = raw.into_string().into_boxed_str();
    assert_eq!(&*boxed_str, r#"{"x":1}"#);
}

#[test]
fn bytes_are_copied_verbatim() {
    let raw = RawValue::from_string("[1, 2, 3]".to_string()).unwrap();
    assert_eq!(raw.to_vec(), b"[1, 2, 3]".to_vec());
    let mut out = b"x=".to_vec();
    raw.write_to(&mut out);
    assert_eq!(out, b"x=[1, 2, 3]".to_vec());
}

#[test]
fn from_string_matches_reference_validation_and_whitespace_behavior() {
    let cases = [
        "null",
        " true ",
        "\n{\"a\": 1, \"b\": [2, 3]}\t",
        r#""escaped\nstring""#,
        "-12.5e3",
        "",
        "null trailing",
        "{]",
    ];

    for input in cases {
        let ours = RawValue::from_string(input.to_owned());
        let reference = serde_json::value::RawValue::from_string(input.to_owned());
        assert_eq!(
            ours.as_ref().ok().map(|value| value.get()),
            reference.as_ref().ok().map(|value| value.get()),
            "input: {input:?}"
        );
        assert_eq!(ours.is_ok(), reference.is_ok(), "input: {input:?}");
    }
}

#[test]
fn boxed_raw_value_matches_serde_json_and_round_trips_allocation() {
    let mut json = String::with_capacity(64);
    json.push_str(r#"{"method":"tools/call","id":7}"#);
    json.shrink_to_fit();
    let original_pointer = json.as_ptr();

    let raw = RawValue::from_string(json).unwrap();
    assert_eq!(raw.get(), r#"{"method":"tools/call","id":7}"#);
    assert_eq!(raw.get().as_ptr(), original_pointer);

    let json = raw.into_string();
    assert_eq!(json.as_ptr(), original_pointer);
    assert_eq!(json, r#"{"method":"tools/call","id":7}"#);

    let ours = RawValue::from_string("[1, 2, 3]".to_owned()).unwrap();
    let reference: Box<serde_json::value::RawValue> = serde_json::from_str("[1, 2, 3]").unwrap();
    assert_eq!(ours.get(), reference.get());
}

#[test]
fn borrowed_raw_value_is_zero_copy_and_preserves_formatting() {
    let input = r#"{"payload": { "nested": [1, 2, 3], "ok": true }}"#;
    let mut payload = None;
    let mut cursor = Cursor::from_str(input);
    cursor
        .object(|object| {
            while let Some(field) = object.next_field()? {
                payload = Some(field.raw()?);
            }
            Ok(())
        })
        .unwrap();
    cursor.end().unwrap();
    let payload = payload.unwrap().get();

    assert_eq!(payload, r#"{ "nested": [1, 2, 3], "ok": true }"#);

    let input_start = input.as_ptr() as usize;
    let input_end = input_start + input.len();
    let raw_start = payload.as_ptr() as usize;
    let raw_end = raw_start + payload.len();
    assert!(raw_start >= input_start);
    assert!(raw_end <= input_end);
}

#[test]
fn borrowed_raw_value_serializes_verbatim_in_compact_and_pretty_output() {
    let raw = RawValue::from_string(r#"{ "x": [1, 2] }"#.to_owned()).unwrap();

    let mut compact = Serializer::new(Vec::new());
    let mut output = compact.begin_struct("BorrowedOutput", 1);
    output.field(&mut compact, "payload").unwrap();
    let mut verbatim = compact.begin_struct(RAW_VALUE_TOKEN, 1);
    verbatim.field(&mut compact, RAW_VALUE_TOKEN).unwrap();
    compact.write(raw.get().as_bytes());
    verbatim.finish(&mut compact).unwrap();
    output.finish(&mut compact).unwrap();
    assert_eq!(
        String::from_utf8(compact.into_inner()).unwrap(),
        r#"{"payload":{ "x": [1, 2] }}"#
    );

    let mut pretty = Serializer::pretty(Vec::new());
    let mut output = pretty.begin_struct("BorrowedOutput", 1);
    output.field(&mut pretty, "payload").unwrap();
    let mut verbatim = pretty.begin_struct(RAW_VALUE_TOKEN, 1);
    verbatim.field(&mut pretty, RAW_VALUE_TOKEN).unwrap();
    pretty.write(raw.get().as_bytes());
    verbatim.finish(&mut pretty).unwrap();
    output.finish(&mut pretty).unwrap();
    assert_eq!(
        String::from_utf8(pretty.into_inner()).unwrap(),
        "{\n  \"payload\": { \"x\": [1, 2] }\n}"
    );

    assert_eq!(raw.to_vec(), br#"{ "x": [1, 2] }"#);
    let mut direct = Vec::new();
    raw.write_to(&mut direct);
    assert_eq!(direct, raw.to_vec());
}
