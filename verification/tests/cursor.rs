use blazingly_json::error::ErrorKind;
use blazingly_json::de::Cursor;
use blazingly_json::raw::RawJson;
use std::borrow::Cow;

#[test]
fn cursor_routes_nested_mcp_fields_without_a_dom() {
    let input = r#"{"jsonrpc":"2.0","id":"req-7","method":"tools/call","ignored":[1,2,3],"params":{"name":"query_graph","arguments":{"query":"entry points","limit":20}}}"#;
    let mut id = None;
    let mut method = None;
    let mut name = None;
    let mut arguments = None;

    let mut cursor = Cursor::from_str(input);
    cursor
        .object(|request| {
            while let Some(field) = request.next_field()? {
                match field.name() {
                    "id" => id = Some(field.raw()?),
                    "method" => method = Some(field.string()?),
                    "params" => field.object(|params| {
                        while let Some(field) = params.next_field()? {
                            match field.name() {
                                "name" => name = Some(field.string()?),
                                "arguments" => arguments = Some(field.raw()?),
                                _ => field.skip()?,
                            }
                        }
                        Ok(())
                    })?,
                    _ => field.skip()?,
                }
            }
            Ok(())
        })
        .unwrap();
    cursor.end().unwrap();

    assert_eq!(id.map(RawJson::get), Some(r#""req-7""#));
    assert_eq!(method, Some(Cow::Borrowed("tools/call")));
    assert_eq!(name, Some(Cow::Borrowed("query_graph")));
    let arguments = arguments.unwrap();
    assert_eq!(arguments.get(), r#"{"query":"entry points","limit":20}"#);
}

#[test]
fn cursor_validates_unvisited_fields_and_trailing_input() {
    let mut malformed = Cursor::from_str(r#"{"wanted":1,"ignored":[1,]}"#);
    assert!(malformed.object(|_| Ok(())).is_err());

    let mut trailing = Cursor::from_str(r#"{"wanted":1} false"#);
    trailing.object(|_| Ok(())).unwrap();
    assert!(trailing.end().is_err());
}

#[test]
fn escaped_field_values_are_decoded_into_owned_strings() {
    let mut cursor = Cursor::from_str(r#"{"text":"line\nbreak \u00e9 \ud83d\ude00"}"#);
    let mut text = None;
    cursor
        .object(|object| {
            while let Some(field) = object.next_field()? {
                text = Some(field.string()?.into_owned());
            }
            Ok(())
        })
        .unwrap();
    cursor.end().unwrap();
    assert_eq!(text.as_deref(), Some("line\nbreak \u{e9} \u{1f600}"));
}

#[test]
fn a_syntax_error_reports_its_line_and_column() {
    let mut cursor = Cursor::from_str("{\n  \"key\": ]");
    let error = cursor.object(|object| {
        while let Some(field) = object.next_field()? {
            field.skip()?;
        }
        Ok(())
    });
    let error = error.unwrap_err();
    assert_eq!(error.line(), 2);
    assert_eq!(error.column(), 10);
    assert!(!error.is_io());
}

#[test]
fn a_visitor_error_comes_back_unchanged() {
    let mut cursor = Cursor::from_str(r#"{"a":1,"b":[1,]}"#);
    let error = cursor
        .object(|_| -> Result<(), blazingly_json::Error> {
            Err(blazingly_json::Error::message_text("stop here"))
        })
        .unwrap_err();
    match error.into_kind() {
        ErrorKind::Message(text) => assert_eq!(text, "stop here"),
        _ => panic!("the visitor's error was replaced"),
    }
}

#[test]
fn a_trailing_comma_fails_the_visit() {
    let mut cursor = Cursor::from_str(r#"{"a":1,}"#);
    let mut names = Vec::new();
    let result = cursor.object(|object| {
        while let Some(field) = object.next_field()? {
            names.push(field.name().to_string());
            field.skip()?;
        }
        Ok(())
    });
    assert_eq!(names, vec!["a".to_string()]);
    let error = result.unwrap_err();
    assert_eq!(error.line(), 1);
    assert_eq!(error.column(), 8);
}

#[test]
fn escaped_member_names_are_decoded_and_the_parser_ends_after_the_brace() {
    let mut cursor = Cursor::from_str("{\"a\\u0062\":1} \n\t");
    let mut name = None;
    cursor
        .object(|object| {
            if let Some(field) = object.next_field()? {
                name = Some(field.name().to_string());
                field.skip()?;
            }
            Ok(())
        })
        .unwrap();
    assert_eq!(name.as_deref(), Some("ab"));
    cursor.end().unwrap();
}

#[test]
fn raw_members_keep_their_inner_whitespace() {
    let input = r#"{"jsonrpc":"2.0","id":"req-7","params": { "x" : [1, 2] } }"#;
    let mut id = None;
    let mut params = None;
    let mut cursor = Cursor::from_str(input);
    cursor
        .object(|object| {
            while let Some(field) = object.next_field()? {
                match field.name() {
                    "id" => id = Some(field.raw()?),
                    "params" => params = Some(field.raw()?),
                    _ => field.skip()?,
                }
            }
            Ok(())
        })
        .unwrap();
    cursor.end().unwrap();
    assert_eq!(id.map(RawJson::get), Some(r#""req-7""#));
    assert_eq!(params.map(RawJson::get), Some(r#"{ "x" : [1, 2] }"#));
}

#[test]
fn a_byte_cursor_and_a_string_cursor_agree() {
    let text = r#"{"name":"query_graph","skip":[1,{"x":null}]}"#;
    let mut from_text = Cursor::from_str(text);
    let mut from_bytes = Cursor::from_slice(text.as_bytes());
    let mut a = None;
    let mut b = None;
    from_text
        .object(|object| {
            while let Some(field) = object.next_field()? {
                match field.name() {
                    "name" => a = Some(field.string()?.into_owned()),
                    _ => field.skip()?,
                }
            }
            Ok(())
        })
        .unwrap();
    from_bytes
        .object(|object| {
            while let Some(field) = object.next_field()? {
                match field.name() {
                    "name" => b = Some(field.string()?.into_owned()),
                    _ => field.skip()?,
                }
            }
            Ok(())
        })
        .unwrap();
    assert_eq!(a, b);
    assert_eq!(a.as_deref(), Some("query_graph"));
    from_text.end().unwrap();
    from_bytes.end().unwrap();
}

#[test]
fn fields_arrive_in_document_order_and_then_none_for_good() {
    let mut cursor = Cursor::from_str(r#"{"z":1,"a":[2],"m":{"k":3}}"#);
    let mut names = Vec::new();
    let mut after_close = Vec::new();
    cursor
        .object(|object| {
            while let Some(field) = object.next_field()? {
                names.push(field.name().to_string());
                field.skip()?;
            }
            for _ in 0..3 {
                after_close.push(object.next_field()?.is_none());
            }
            Ok(())
        })
        .unwrap();
    cursor.end().unwrap();
    assert_eq!(names, vec!["z".to_string(), "a".to_string(), "m".to_string()]);
    assert_eq!(after_close, vec![true, true, true]);
}
