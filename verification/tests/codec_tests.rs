use jdn_utils::{
    conversion_result, deserialize_string, deserialize_text, deserialize_texts, deserialize_vec,
    finalize_serialization, remove_u32, remove_usize, serialize_string, serialize_text,
    serialize_texts, serialize_vec, NormalizedString, SerializationError,
};

const WIDTH: usize = std::mem::size_of::<usize>();

fn prefix(value: usize) -> Vec<u8> {
    value.to_le_bytes().to_vec()
}

/// A number in decimal, for which only digits convert.
#[derive(Debug, PartialEq)]
struct Digits(String);

impl TryFrom<String> for Digits {
    type Error = String;

    fn try_from(value: String) -> Result<Self, Self::Error> {
        if !value.is_empty() && value.chars().all(|c| c.is_ascii_digit()) {
            Ok(Digits(value))
        } else {
            Err(format!("not a number: {}", value))
        }
    }
}

#[test]
fn a_string_is_its_length_then_its_bytes() {
    let mut buffer = vec![7u8];
    serialize_string("abc", &mut buffer);
    let mut expected = vec![7u8];
    expected.extend(prefix(3));
    expected.extend(b"abc");
    assert_eq!(buffer, expected);
    assert_eq!(buffer[1], 3);
    assert!(buffer[2..1 + WIDTH].iter().all(|b| *b == 0));
}

#[test]
fn the_length_prefix_counts_bytes() {
    let mut buffer = Vec::new();
    serialize_text("\u{e9}\u{65e5}", &mut buffer);
    let mut expected = prefix(5);
    expected.extend("\u{e9}\u{65e5}".as_bytes());
    assert_eq!(buffer, expected);
}

#[test]
fn a_long_length_uses_the_second_prefix_byte() {
    let text = "x".repeat(258);
    let mut buffer = Vec::new();
    serialize_text(&text, &mut buffer);
    assert_eq!(buffer.len(), WIDTH + 258);
    assert_eq!(buffer[0], 2);
    assert_eq!(buffer[1], 1);
    assert!(buffer[2..WIDTH].iter().all(|b| *b == 0));
    assert_eq!(deserialize_text(&mut buffer), Ok(text));
    assert!(buffer.is_empty());
}

#[test]
fn strings_round_trip() {
    for text in ["", "hello", "h\u{e9}llo w\u{f6}rld \u{2713} \u{65e5}\u{672c}\u{8a9e} \u{1f600}"] {
        let mut buffer = Vec::new();
        serialize_string(text, &mut buffer);
        assert_eq!(deserialize_string::<String>(&mut buffer), Ok(String::from(text)));
        assert!(buffer.is_empty());
    }
}

#[test]
fn a_string_leaves_what_follows_it() {
    let mut buffer = Vec::new();
    serialize_string(String::from("first"), &mut buffer);
    serialize_string(String::from("second"), &mut buffer);
    buffer.push(9);
    assert_eq!(deserialize_string::<String>(&mut buffer), Ok(String::from("first")));
    assert_eq!(deserialize_text(&mut buffer), Ok(String::from("second")));
    assert_eq!(buffer, vec![9u8]);
}

#[test]
fn a_validated_string_is_written_as_its_text() {
    let wrapped = NormalizedString::default_verify(String::from("asdf"), "User ID").unwrap();
    let mut buffer = Vec::new();
    serialize_string(wrapped, &mut buffer);
    let mut expected = prefix(4);
    expected.extend(b"asdf");
    assert_eq!(buffer, expected);
}

#[test]
fn sequences_round_trip_in_order() {
    let cases: Vec<Vec<String>> = vec![
        vec![],
        vec![String::new()],
        vec![String::from("b"), String::from("a"), String::new(), String::from("\u{65e5}\u{672c}")],
    ];
    for values in cases {
        let mut buffer = Vec::new();
        serialize_vec(values.clone(), &mut buffer);
        assert_eq!(deserialize_vec::<String>(&mut buffer), Ok(values));
        assert!(buffer.is_empty());
    }
}

#[test]
fn a_sequence_is_its_count_then_its_strings() {
    let mut buffer = Vec::new();
    serialize_vec(vec!["ab", "c"], &mut buffer);
    let mut expected = prefix(2);
    expected.extend(prefix(2));
    expected.extend(b"ab");
    expected.extend(prefix(1));
    expected.extend(b"c");
    assert_eq!(buffer, expected);

    let mut empty = Vec::new();
    serialize_vec(Vec::<String>::new(), &mut empty);
    assert_eq!(empty, prefix(0));
}

#[test]
fn finalize_puts_the_length_in_front() {
    let mut buffer = vec![1u8, 2, 3];
    finalize_serialization(&mut buffer);
    let mut expected = prefix(3);
    expected.extend([1u8, 2, 3]);
    assert_eq!(buffer, expected);
    assert_eq!(remove_usize(&mut buffer), Ok(3));
    assert_eq!(buffer, vec![1u8, 2, 3]);

    let mut empty = Vec::new();
    finalize_serialization(&mut empty);
    assert_eq!(empty, prefix(0));
}

#[test]
fn short_buffers_are_left_unchanged() {
    for len in 0..WIDTH {
        let start: Vec<u8> = (0..len).map(|i| i as u8 + 1).collect();
        let mut buffer = start.clone();
        assert_eq!(
            remove_usize(&mut buffer),
            Err(SerializationError::UnexpectedByteCount(WIDTH, len))
        );
        assert_eq!(buffer, start);
    }
    for len in 0..4 {
        let start: Vec<u8> = (0..len).map(|i| i as u8 + 1).collect();
        let mut buffer = start.clone();
        assert_eq!(
            remove_u32(&mut buffer),
            Err(SerializationError::UnexpectedByteCount(4, len))
        );
        assert_eq!(buffer, start);
    }
}

#[test]
fn integers_are_little_endian() {
    let mut buffer = vec![0x78u8, 0x56, 0x34, 0x12, 9];
    assert_eq!(remove_u32(&mut buffer), Ok(0x1234_5678));
    assert_eq!(buffer, vec![9u8]);

    let mut buffer = vec![0xffu8; 4];
    assert_eq!(remove_u32(&mut buffer), Ok(u32::MAX));

    let mut buffer = prefix(0x0102_0304);
    buffer.push(5);
    assert_eq!(buffer[0], 4);
    assert_eq!(remove_usize(&mut buffer), Ok(0x0102_0304));
    assert_eq!(buffer, vec![5u8]);

    let mut buffer = prefix(usize::MAX);
    assert_eq!(remove_usize(&mut buffer), Ok(usize::MAX));
}

#[test]
fn thirty_two_leaves_the_buffer_empty() {
    let mut buffer = 32u32.to_le_bytes().to_vec();
    assert_eq!(buffer, vec![32u8, 0, 0, 0]);
    assert_eq!(remove_u32(&mut buffer), Ok(32));
    assert!(buffer.is_empty());
}

#[test]
fn an_empty_buffer_holds_no_string() {
    let mut buffer: Vec<u8> = Vec::new();
    assert_eq!(
        deserialize_string::<String>(&mut buffer),
        Err(SerializationError::UnexpectedByteCount(WIDTH, 0))
    );
    assert!(buffer.is_empty());
    assert_eq!(
        deserialize_vec::<String>(&mut buffer),
        Err(SerializationError::UnexpectedByteCount(WIDTH, 0))
    );
}

#[test]
fn invalid_utf8_is_reported_and_removed() {
    let mut buffer = prefix(2);
    buffer.extend([0xc3u8, 0x28, 7]);
    let result = deserialize_string::<String>(&mut buffer);
    assert!(matches!(result, Err(SerializationError::InvalidString { .. })));
    assert_eq!(buffer, vec![7u8]);

    let mut buffer = prefix(1);
    buffer.push(0xff);
    assert!(matches!(
        deserialize_text(&mut buffer),
        Err(SerializationError::InvalidString { .. })
    ));
    assert!(buffer.is_empty());
}

#[test]
fn a_truncated_payload_drains_the_buffer() {
    let mut buffer = prefix(5);
    buffer.extend(b"ab");
    assert_eq!(
        deserialize_string::<String>(&mut buffer),
        Err(SerializationError::UnexpectedByteCount(5, 2))
    );
    assert!(buffer.is_empty());

    let mut buffer = prefix(usize::MAX);
    assert_eq!(
        deserialize_text(&mut buffer),
        Err(SerializationError::UnexpectedByteCount(usize::MAX, 0))
    );
    assert!(buffer.is_empty());
}

#[test]
fn a_rejected_text_is_an_invalid_value() {
    let mut buffer = Vec::new();
    serialize_string("12a", &mut buffer);
    serialize_string("34", &mut buffer);
    assert_eq!(
        deserialize_string::<Digits>(&mut buffer),
        Err(SerializationError::InvalidValue(String::from("not a number: 12a")))
    );
    assert_eq!(deserialize_string::<Digits>(&mut buffer), Ok(Digits(String::from("34"))));
    assert!(buffer.is_empty());
}

#[test]
fn a_sequence_stops_at_the_first_failure() {
    let mut buffer = Vec::new();
    serialize_vec(vec!["1", "x", "3"], &mut buffer);
    assert_eq!(
        deserialize_vec::<Digits>(&mut buffer),
        Err(SerializationError::InvalidValue(String::from("not a number: x")))
    );
    let mut left = Vec::new();
    serialize_string("3", &mut left);
    assert_eq!(buffer, left);

    let mut buffer = prefix(3);
    serialize_string("1", &mut buffer);
    assert_eq!(
        deserialize_vec::<Digits>(&mut buffer),
        Err(SerializationError::UnexpectedByteCount(WIDTH, 0))
    );

    let mut buffer = prefix(usize::MAX);
    assert_eq!(
        deserialize_vec::<String>(&mut buffer),
        Err(SerializationError::UnexpectedByteCount(WIDTH, 0))
    );
}

#[test]
fn a_sequence_converts_each_item() {
    let mut buffer = Vec::new();
    serialize_vec(vec!["10", "20"], &mut buffer);
    buffer.push(1);
    assert_eq!(
        deserialize_vec::<Digits>(&mut buffer),
        Ok(vec![Digits(String::from("10")), Digits(String::from("20"))])
    );
    assert_eq!(buffer, vec![1u8]);
}

#[test]
fn plain_texts_round_trip_in_order() {
    let cases: Vec<Vec<String>> = vec![
        vec![],
        vec![String::new(), String::new()],
        vec![String::from("z"), String::from("\u{1f600}"), String::from("a b")],
    ];
    for values in cases {
        let mut buffer = Vec::new();
        serialize_texts(&values, &mut buffer);
        let mut same = Vec::new();
        serialize_vec(values.clone(), &mut same);
        assert_eq!(buffer, same);
        buffer.push(4);
        assert_eq!(deserialize_texts(&mut buffer), Ok(values));
        assert_eq!(buffer, vec![4u8]);
    }
}

#[test]
fn plain_texts_stop_at_the_first_failure() {
    let mut buffer = prefix(2);
    serialize_text("ok", &mut buffer);
    buffer.extend(prefix(1));
    buffer.push(0x80);
    assert!(matches!(
        deserialize_texts(&mut buffer),
        Err(SerializationError::InvalidString { .. })
    ));
    assert!(buffer.is_empty());

    let mut buffer = prefix(2);
    serialize_text("ok", &mut buffer);
    buffer.extend([1u8, 2]);
    assert_eq!(
        deserialize_texts(&mut buffer),
        Err(SerializationError::UnexpectedByteCount(WIDTH, 2))
    );
    assert_eq!(buffer, vec![1u8, 2]);

    let mut short = vec![1u8];
    assert_eq!(
        deserialize_texts(&mut short),
        Err(SerializationError::UnexpectedByteCount(WIDTH, 1))
    );
    assert_eq!(short, vec![1u8]);
}

#[test]
fn a_conversion_keeps_its_value_or_its_message() {
    assert_eq!(conversion_result::<u8, String>(Ok(7)), Ok(7));
    assert_eq!(
        conversion_result::<u8, &str>(Err("no")),
        Err(SerializationError::InvalidValue(String::from("no")))
    );
}

#[test]
fn serialization_messages() {
    assert_eq!(
        SerializationError::UnexpectedByteCount(8, 3).message(),
        "Expected 8 bytes, found 3"
    );
    assert_eq!(
        SerializationError::InvalidValue(String::from("bad value")).message(),
        "bad value"
    );
    let mut buffer = prefix(1);
    buffer.push(0xff);
    let error = deserialize_text(&mut buffer).unwrap_err();
    assert_eq!(error.message(), "Could not deserialize to string, invalid UTF8");
}
