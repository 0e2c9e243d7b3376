use blazingly_json::swar::find_string_special;

/// The scalar definition the word-at-a-time version has to agree with.
fn scalar(bytes: &[u8]) -> Option<usize> {
    bytes
        .iter()
        .position(|&byte| byte < 0x20 || matches!(byte, b'"' | b'\\'))
}

#[test]
fn it_agrees_with_the_scalar_scan_at_every_length_and_position() {
    for length in 0..40_usize {
        for position in 0..length {
            for special in [0x00_u8, 0x01, 0x1f, b'"', b'\\'] {
                let mut bytes = vec![b'a'; length];
                bytes[position] = special;
                assert_eq!(
                    find_string_special(&bytes),
                    scalar(&bytes),
                    "length {length}, position {position}, byte {special:#04x}"
                );
            }
        }
        assert_eq!(find_string_special(&vec![b'a'; length]), None);
    }
}

#[test]
fn a_high_byte_is_not_special_and_does_not_disturb_its_neighbours() {
    for high in [0x80_u8, 0xc3, 0xff] {
        for position in 0..16_usize {
            let mut bytes = vec![b'a'; 16];
            bytes[position] = high;
            assert_eq!(
                find_string_special(&bytes),
                None,
                "{high:#04x} @ {position}"
            );

            let mut bytes = vec![b'a'; 16];
            bytes[position] = high;
            bytes[15] = b'"';
            assert_eq!(find_string_special(&bytes), Some(15));
        }
    }
}

#[test]
fn every_byte_value_classifies_the_same_as_the_scalar_scan() {
    for byte in 0..=u8::MAX {
        let bytes = [byte];
        assert_eq!(find_string_special(&bytes), scalar(&bytes), "{byte:#04x}");
    }
}

#[test]
fn the_first_of_several_special_bytes_is_reported() {
    let mut bytes = vec![b'x'; 24];
    bytes[20] = b'\\';
    bytes[9] = b'"';
    bytes[3] = 0x0a;
    assert_eq!(find_string_special(&bytes), Some(3));
}
