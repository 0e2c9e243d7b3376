use blazingly_json::access::{EnumStart, NumberClass, ValueKind};
use blazingly_json::de::Deserializer;
use blazingly_json::error::{ErrorCode, ErrorKind};

fn code(error: blazingly_json::error::Error) -> ErrorCode {
    match error.into_kind() {
        ErrorKind::Syntax(code) => code,
        _ => panic!("not a syntax error"),
    }
}

#[test]
fn arrays_are_read_element_by_element() {
    let mut parser = Deserializer::from_str(" [ 1 , 2 ] ");
    let mut state = parser.begin_seq().unwrap();
    let mut seen = Vec::new();
    while parser.next_element(&mut state).unwrap() {
        seen.push(parser.parse_u64_value().unwrap());
    }
    assert_eq!(seen, vec![1, 2]);
    assert!(!parser.next_element(&mut state).unwrap());
    parser.end().unwrap();
}

#[test]
fn a_trailing_comma_in_an_array_is_refused() {
    let mut parser = Deserializer::from_str("[1,]");
    let mut state = parser.begin_seq().unwrap();
    assert!(parser.next_element(&mut state).unwrap());
    parser.parse_u64_value().unwrap();
    assert_eq!(code(parser.next_element(&mut state).unwrap_err()), ErrorCode::TrailingCommaInArray);
}

#[test]
fn objects_are_read_key_by_key() {
    let mut parser = Deserializer::from_str(r#"{"a": true, "b": null}"#);
    let mut state = parser.begin_map().unwrap();
    let key = parser.next_key(&mut state).unwrap().unwrap();
    assert_eq!(key, "a");
    assert_eq!(code(parser.next_key(&mut state).unwrap_err()), ErrorCode::ObjectValueNotConsumed);
    parser.next_value(&mut state).unwrap();
    assert!(parser.parse_bool().unwrap());
    assert_eq!(parser.next_key(&mut state).unwrap().unwrap(), "b");
    parser.next_value(&mut state).unwrap();
    assert!(parser.parse_null_if_present().unwrap());
    assert!(parser.next_key(&mut state).unwrap().is_none());
    assert_eq!(code(parser.next_value(&mut state).unwrap_err()), ErrorCode::ObjectKeyNotConsumed);
    parser.end().unwrap();
}

#[test]
fn a_trailing_comma_in_an_object_is_refused() {
    let mut parser = Deserializer::from_str(r#"{"a":1,}"#);
    let mut state = parser.begin_map().unwrap();
    parser.next_key(&mut state).unwrap();
    parser.next_value(&mut state).unwrap();
    parser.parse_u64_value().unwrap();
    assert_eq!(code(parser.next_key(&mut state).unwrap_err()), ErrorCode::TrailingCommaInObject);
}

#[test]
fn enums_start_with_a_name_or_an_object() {
    let mut unit = Deserializer::from_str(r#""Ready""#);
    match unit.begin_enum().unwrap() {
        EnumStart::Name(name) => assert_eq!(name, "Ready"),
        EnumStart::Object => panic!("expected a name"),
    }
    let mut wrapped = Deserializer::from_str(r#"{"Failed": "boom"}"#);
    assert!(matches!(wrapped.begin_enum().unwrap(), EnumStart::Object));
    assert_eq!(wrapped.variant_name().unwrap(), "Failed");
    assert_eq!(wrapped.parse_string().unwrap(), "boom");
    wrapped.end_variant().unwrap();
    wrapped.end().unwrap();
    let mut neither = Deserializer::from_str("7");
    assert_eq!(code(neither.begin_enum().unwrap_err()), ErrorCode::ExpectedEnum);
}

#[test]
fn value_kinds_follow_the_first_byte() {
    for (input, kind) in [
        ("null", ValueKind::Null),
        (" true", ValueKind::True),
        ("false", ValueKind::False),
        ("\"s\"", ValueKind::String),
        ("[", ValueKind::Array),
        ("{", ValueKind::Object),
        ("-1", ValueKind::Number),
        ("7", ValueKind::Number),
    ] {
        assert_eq!(Deserializer::from_str(input).value_kind().unwrap(), kind, "{input}");
    }
    assert_eq!(code(Deserializer::from_str("x").value_kind().unwrap_err()), ErrorCode::ExpectedValue);
    assert_eq!(code(Deserializer::from_str("  ").value_kind().unwrap_err()), ErrorCode::UnexpectedEnd);
}

#[test]
fn narrow_integers_are_range_checked() {
    assert_eq!(Deserializer::from_str("127").parse_i64_in(-128, 127).unwrap(), 127);
    assert_eq!(
        code(Deserializer::from_str("128").parse_i64_in(-128, 127).unwrap_err()),
        ErrorCode::IntegerOutOfRange
    );
    assert_eq!(Deserializer::from_str("255").parse_u64_up_to(255).unwrap(), 255);
    assert_eq!(
        code(Deserializer::from_str("256").parse_u64_up_to(255).unwrap_err()),
        ErrorCode::IntegerOutOfRange
    );
}

#[test]
fn single_characters_are_read_from_strings() {
    assert_eq!(Deserializer::from_str(r#""é""#).parse_char().unwrap(), 'é');
    assert_eq!(
        code(Deserializer::from_str(r#""ab""#).parse_char().unwrap_err()),
        ErrorCode::ExpectedOneCharacter
    );
    assert!(Deserializer::from_str("\"\"").parse_char().is_err());
}

#[test]
fn number_tokens_are_classified() {
    let class = |input: &str| Deserializer::from_str(input).parse_number().unwrap().class();
    assert_eq!(class("1"), NumberClass::Unsigned(1));
    assert_eq!(class("-1"), NumberClass::Signed(-1));
    assert_eq!(class("-0"), NumberClass::Float);
    assert_eq!(class("1.5"), NumberClass::Float);
    assert_eq!(class("2e3"), NumberClass::Float);
    assert_eq!(class("-9223372036854775808"), NumberClass::Signed(i64::MIN));
    assert_eq!(class("-9223372036854775809"), NumberClass::OutOfRange);
    assert_eq!(class("18446744073709551616"), NumberClass::OutOfRange);
}
