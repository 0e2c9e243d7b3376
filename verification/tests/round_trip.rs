use blazingly_json::de::Deserializer;
use blazingly_json::ser::Serializer;

fn written_string(value: &str) -> Vec<u8> {
    let mut serializer = Serializer::new(Vec::new());
    serializer.write_string(value);
    serializer.into_inner()
}

#[test]
fn strings_read_back_as_written() {
    for value in [
        "",
        "plain",
        "quote \" and backslash \\",
        "controls \u{0}\u{1}\u{1f}\n\r\t\u{8}\u{c}",
        "unicode é ✓ 🚀",
        "slash / stays",
    ] {
        let bytes = written_string(value);
        let mut parser = Deserializer::from_slice(&bytes);
        assert_eq!(parser.parse_string().unwrap(), value);
        parser.end().unwrap();
    }
}

#[test]
fn integers_read_back_as_written() {
    for value in [0_i64, 1, -1, 42, i64::MAX, i64::MIN] {
        let mut serializer = Serializer::new(Vec::new());
        serializer.write_i64(value);
        let bytes = serializer.into_inner();
        assert_eq!(Deserializer::from_slice(&bytes).parse_i64_value().unwrap(), value);
    }
    for value in [0_u64, 7, u64::MAX] {
        let mut serializer = Serializer::new(Vec::new());
        serializer.write_u64(value);
        let bytes = serializer.into_inner();
        assert_eq!(Deserializer::from_slice(&bytes).parse_u64_value().unwrap(), value);
    }
}
