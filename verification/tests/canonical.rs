use blazingly_json::canonical::CanonicalScanner;
use blazingly_json::de::Cursor;

#[derive(Debug, Eq, PartialEq)]
struct Call<'a> {
    id: &'a str,
    name: &'a str,
    query: &'a str,
    limit: u64,
    include_source: bool,
}

fn canonical_call(input: &str) -> Option<Call<'_>> {
    let mut scanner = CanonicalScanner::new(input.as_bytes());
    scanner.literal(br#"{"jsonrpc":"2.0","id":"#)?;
    let id = scanner.plain_string()?;
    scanner.literal(br#","method":"tools/call","params":{"name":"#)?;
    let name = scanner.plain_string()?;
    scanner.literal(br#","arguments":{"query":"#)?;
    let query = scanner.plain_string()?;
    scanner.literal(br#","limit":"#)?;
    let limit = scanner.unsigned()?;
    scanner.literal(br#","include_source":"#)?;
    let include_source = scanner.boolean()?;
    scanner.literal(b"}}}")?;
    if scanner.is_finished() {
        Some(Call {
            id,
            name,
            query,
            limit,
            include_source,
        })
    } else {
        None
    }
}

#[test]
fn recognizes_the_complete_canonical_layout() {
    let input = r#"{"jsonrpc":"2.0","id":"req-7","method":"tools/call","params":{"name":"query_graph","arguments":{"query":"entry points","limit":20,"include_source":true}}}"#;
    assert_eq!(
        canonical_call(input),
        Some(Call {
            id: "req-7",
            name: "query_graph",
            query: "entry points",
            limit: 20,
            include_source: true,
        })
    );
}

#[test]
fn mismatch_is_a_fallback_signal_not_partial_success() {
    for (input, valid_general_json) in [
        (
            r#"{"jsonrpc": "2.0","id":"req-7","method":"tools/call","params":{"name":"query_graph","arguments":{"query":"entry points","limit":20,"include_source":true}}}"#,
            true,
        ),
        (
            r#"{"jsonrpc":"2.0","id":"req\u002d7","method":"tools/call","params":{"name":"query_graph","arguments":{"query":"entry points","limit":20,"include_source":true}}}"#,
            true,
        ),
        (
            r#"{"jsonrpc":"2.0","id":"req-7","method":"tools/call","params":{"name":"query_graph","arguments":{"query":"entry points","limit":020,"include_source":true}}}"#,
            false,
        ),
        (
            r#"{"jsonrpc":"2.0","id":"req-7","method":"tools/call","params":{"name":"query_graph","arguments":{"query":"entry points","limit":20,"include_source":true}}} trailing"#,
            false,
        ),
    ] {
        assert!(canonical_call(input).is_none());
        let mut fallback = Cursor::from_str(input);
        let parsed = fallback.object(|_| Ok(()));
        if valid_general_json {
            parsed.unwrap();
            fallback.end().unwrap();
        } else {
            assert!(parsed.and_then(|()| fallback.end()).is_err());
        }
    }
}

#[test]
fn invalid_utf8_never_becomes_a_borrowed_string() {
    let input = b"\"\xff\"";
    let mut scanner = CanonicalScanner::new(input);
    assert!(scanner.plain_string().is_none());
    assert_eq!(scanner.remaining(), input);
}

#[test]
fn byte_input_is_validated_once_before_matching() {
    let mut scanner = CanonicalScanner::new(br#"{"enabled":true}"#);
    scanner.literal(br#"{"enabled":"#).unwrap();
    assert_eq!(scanner.boolean(), Some(true));
    scanner.literal(b"}").unwrap();
    assert!(scanner.is_finished());
}

#[test]
fn a_failed_literal_leaves_the_scanner_where_it_was() {
    let mut scanner = CanonicalScanner::new(b"[1]");
    assert!(scanner.literal(b"{").is_none());
    assert_eq!(scanner.remaining(), b"[1]");
    assert!(scanner.literal(b"[").is_some());
    assert_eq!(scanner.remaining(), b"1]");
}

#[test]
fn unsigned_rejects_leading_zeros_and_overflow() {
    assert_eq!(CanonicalScanner::new(b"0").unsigned(), Some(0));
    assert_eq!(CanonicalScanner::new(b"01").unsigned(), None);
    assert_eq!(
        CanonicalScanner::new(b"18446744073709551615,").unsigned(),
        Some(u64::MAX)
    );
    assert_eq!(CanonicalScanner::new(b"18446744073709551616").unsigned(), None);
    let mut scanner = CanonicalScanner::new(b"42x");
    assert_eq!(scanner.unsigned(), Some(42));
    assert_eq!(scanner.remaining(), b"x");
}

#[test]
fn plain_string_refuses_escapes_and_control_bytes() {
    assert_eq!(CanonicalScanner::new(br#""plain""#).plain_string(), Some("plain"));
    assert_eq!(CanonicalScanner::new(br#""a\nb""#).plain_string(), None);
    assert_eq!(CanonicalScanner::new(b"\"a\tb\"").plain_string(), None);
    assert_eq!(CanonicalScanner::new(b"\"open").plain_string(), None);
    assert_eq!(CanonicalScanner::new(b"nope").plain_string(), None);
}
