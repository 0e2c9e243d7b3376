use blazingly_json::de::Deserializer;
use blazingly_json::error::{ErrorCode, ErrorKind};

const VALID_FIXTURES: &[&str] = &[
    "null",
    "true",
    "false",
    "0",
    "-0",
    "18446744073709551615",
    "-9223372036854775808",
    "1.25e-3",
    r#""""#,
    r#""plain ASCII""#,
    r#""escaped\nline\t\u20ac""#,
    r#""surrogate \ud83d\ude80""#,
    "[]",
    "{}",
    r#"{"jsonrpc":"2.0","id":1,"method":"ping","params":{}}"#,
    r#"{"a":[null,true,false,1,-2,3.5,"x"],"b":{"c":"d"}}"#,
];

const INVALID_FIXTURES: &[&str] = &[
    "",
    "nul",
    "True",
    "01",
    "-",
    "1.",
    "1e",
    "1e+",
    "[1,]",
    r#"{"a":1,}"#,
    r#"{"a" 1}"#,
    r#""unterminated"#,
    "\"control\ncharacter\"",
    r#""\x""#,
    r#""\ud800""#,
    r#""\udc00""#,
    "null true",
];

fn accepts(input: &str) -> bool {
    let mut parser = Deserializer::from_str(input);
    parser.skip_value().is_ok() && parser.end().is_ok()
}

#[test]
fn the_valid_corpus_is_accepted() {
    for fixture in VALID_FIXTURES {
        assert!(accepts(fixture), "fixture: {fixture}");
    }
}

#[test]
fn the_invalid_corpus_is_rejected() {
    for fixture in INVALID_FIXTURES {
        assert!(!accepts(fixture), "fixture: {fixture}");
    }
}

fn syntax_code(input: &str) -> ErrorCode {
    let mut parser = Deserializer::from_str(input);
    let error = match parser.skip_value() {
        Err(error) => error,
        Ok(()) => parser.end().unwrap_err(),
    };
    match error.into_kind() {
        ErrorKind::Syntax(code) => code,
        _ => panic!("not a syntax error"),
    }
}

#[test]
fn each_malformed_input_gets_its_own_error_code() {
    assert_eq!(syntax_code("01"), ErrorCode::LeadingZero);
    assert_eq!(syntax_code("1."), ErrorCode::FractionWithoutDigits);
    assert_eq!(syntax_code("1e"), ErrorCode::ExponentWithoutDigits);
    assert_eq!(syntax_code("[1,]"), ErrorCode::ExpectedValue);
    assert_eq!(syntax_code(r#"{"a":1,}"#), ErrorCode::ExpectedString);
    assert_eq!(syntax_code("null true"), ErrorCode::TrailingCharacters);
    assert_eq!(syntax_code(r#""\x""#), ErrorCode::InvalidEscape);
    assert_eq!(syntax_code(r#""\ud800""#), ErrorCode::HighSurrogateWithoutLow);
    assert_eq!(syntax_code(r#""\udc00""#), ErrorCode::UnexpectedLowSurrogate);
    assert_eq!(syntax_code("\"a\nb\""), ErrorCode::ControlCharacter);
    assert_eq!(syntax_code("\"open"), ErrorCode::UnterminatedString);
    assert_eq!(syntax_code(""), ErrorCode::UnexpectedEnd);
}

#[test]
fn nesting_deeper_than_the_limit_is_refused() {
    let shallow = "[".repeat(128) + &"]".repeat(128);
    assert!(accepts(&shallow));
    let deep = "[".repeat(129) + &"]".repeat(129);
    assert_eq!(syntax_code(&deep), ErrorCode::RecursionLimit);
}

#[test]
fn integers_are_read_with_their_range_checked() {
    assert_eq!(
        Deserializer::from_str("-9223372036854775808").parse_i64_value().unwrap(),
        i64::MIN
    );
    assert_eq!(
        Deserializer::from_str(" 18446744073709551615").parse_u64_value().unwrap(),
        u64::MAX
    );
    assert!(Deserializer::from_str("18446744073709551616").parse_u64_value().is_err());
    assert!(Deserializer::from_str("9223372036854775808").parse_i64_value().is_err());
    assert!(Deserializer::from_str("-1").parse_u64_value().is_err());
    assert!(Deserializer::from_str("1.5").parse_i64_value().is_err());
}

#[test]
fn invalid_utf8_is_rejected_without_panicking() {
    let invalid = b"{\"value\":\"\xff\"}";
    let mut parser = Deserializer::from_slice(invalid);
    assert!(parser.skip_value().is_err());
}

#[test]
fn raw_capture_keeps_the_exact_text() {
    let mut parser = Deserializer::from_str(r#"  { "nested": [1, 2, 3], "ok": true }  "#);
    let raw = parser.capture_raw().unwrap();
    assert_eq!(raw, r#"{ "nested": [1, 2, 3], "ok": true }"#);
    parser.end().unwrap();
}

#[test]
fn unescaped_strings_are_borrowed_and_escaped_ones_are_owned() {
    let mut plain = Deserializer::from_str(r#""query_graph""#);
    assert!(matches!(
        plain.parse_string().unwrap(),
        std::borrow::Cow::Borrowed("query_graph")
    ));
    let mut escaped = Deserializer::from_str(r#""tab\there""#);
    match escaped.parse_string().unwrap() {
        std::borrow::Cow::Owned(text) => assert_eq!(text, "tab\there"),
        std::borrow::Cow::Borrowed(_) => panic!("an escaped string cannot be borrowed"),
    }
}

#[test]
fn validating_and_decoding_a_string_stop_at_the_same_byte() {
    for input in [
        r#""plain" tail"#,
        r#""esc\"aped\\ \u00e9 \ud83d\ude00" tail"#,
        r#""bad \x escape""#,
        "\"control\ncharacter\"",
        r#""unterminated"#,
    ] {
        let mut skipping = Deserializer::from_str(input);
        let skipped = skipping.skip_value();
        let mut decoding = Deserializer::from_str(input);
        let decoded = decoding.parse_string();
        assert_eq!(skipped.is_ok(), decoded.is_ok(), "input: {input:?}");
        if skipped.is_ok() {
            assert_eq!(skipping.remaining_len(), decoding.remaining_len(), "input: {input:?}");
        }
    }
}

#[test]
fn numbers_outside_the_rfc_form_are_refused() {
    for input in ["01", "-", "1.", ".5", "1e", "1e+", "+1", "-01"] {
        let mut parser = Deserializer::from_str(input);
        assert!(parser.parse_number().is_err(), "input: {input:?}");
    }
    for input in ["0", "-0", "10", "1.25", "-4.5E-2", "3e8", "1e+9"] {
        let mut parser = Deserializer::from_str(input);
        assert!(parser.parse_number().is_ok(), "input: {input:?}");
        assert_eq!(parser.remaining_len(), 0, "input: {input:?}");
    }
}

#[test]
fn skipped_values_stay_within_the_nesting_limit() {
    let deepest = format!("{}{}", "[".repeat(128), "]".repeat(128));
    let mut parser = Deserializer::from_str(&deepest);
    assert!(parser.skip_value().is_ok());
    parser.end().unwrap();

    let too_deep = format!("{}{}", "[".repeat(129), "]".repeat(129));
    let mut parser = Deserializer::from_str(&too_deep);
    let error = parser.skip_value().unwrap_err();
    match error.into_kind() {
        ErrorKind::Syntax(code) => assert_eq!(code, ErrorCode::RecursionLimit),
        _ => panic!("not a syntax error"),
    }
}

#[test]
fn a_captured_value_is_the_value_without_the_whitespace_around_it() {
    let mut parser = Deserializer::from_str(" \n\t{ \"a\" : [1, \"x\"] }  ");
    assert_eq!(parser.capture_raw().unwrap(), "{ \"a\" : [1, \"x\"] }");
    parser.end().unwrap();
}

#[test]
fn every_kind_of_json_value_is_accepted() {
    for input in [
        r#""slash \/ and \b\f\n\r\t\"\\ escapes""#,
        r#""pair \uD83D\uDE00 and \u00e9""#,
        "1E5",
        "-0.5e-3",
        "2E+10",
        " [ 1 , { \"k\" : [ true , false , null ] } , \"x\" ] ",
        "{\"a\":{},\"b\":[],\"c\":\"\"}",
        "\t\r\n0",
    ] {
        let mut parser = Deserializer::from_str(input);
        assert!(parser.skip_value().is_ok(), "input: {input:?}");
        parser.end().unwrap();
    }
    let mut parser = Deserializer::from_str("[3.5,-1]");
    assert!(parser.skip_value().is_ok());
    assert_eq!(parser.remaining_len(), 0);
}
