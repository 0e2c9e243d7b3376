use blazingly_json::error::{ErrorCode, ErrorKind};
use blazingly_json::Error;

#[test]
fn error_code_describes_expected_byte() {
    assert_eq!(ErrorCode::ExpectedByte(b':').text(), "expected `:`");
    assert_eq!(ErrorCode::ExpectedByte(b']').text(), "expected `]`");
    assert_eq!(ErrorCode::ExpectedByte(b'x').text(), "expected a different byte");
    assert_eq!(ErrorCode::TrailingCharacters.text(), "trailing characters");
}

#[test]
fn syntax_error_counts_lines_and_columns_from_one() {
    let input = b"{\n  \"a\": tru\n}";
    let error = Error::syntax(ErrorCode::ExpectedLiteral, input, 9);
    assert_eq!(error.line(), 2);
    assert_eq!(error.column(), 8);
    assert!(matches!(error.kind(), ErrorKind::Syntax(ErrorCode::ExpectedLiteral)));
    assert!(!error.is_io());
}

#[test]
fn syntax_error_on_first_line_and_past_the_end() {
    let error = Error::syntax(ErrorCode::UnexpectedEnd, b"[1,", 3);
    assert_eq!(error.line(), 1);
    assert_eq!(error.column(), 4);
    let clamped = Error::syntax(ErrorCode::UnexpectedEnd, b"[1,", 40);
    assert_eq!(clamped.line(), 1);
    assert_eq!(clamped.column(), 4);
}

#[test]
fn message_error_has_no_position() {
    let error = Error::message_text("custom failure");
    assert_eq!(error.line(), 0);
    assert_eq!(error.column(), 0);
    match error.into_kind() {
        ErrorKind::Message(text) => assert_eq!(text, "custom failure"),
        _ => panic!("expected a message error"),
    }
}

#[test]
fn io_error_is_reported_as_io() {
    let error = Error::io(std::io::Error::new(std::io::ErrorKind::Other, "disk full"));
    assert!(error.is_io());
    assert_eq!(error.line(), 0);
}
