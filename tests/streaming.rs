use borc::basic::streaming::{Decoder, Encoder, Event, FloatBits};
use borc::errors::{DecodeError, EncodeError};

fn decoder(bytes: &[u8]) -> Decoder {
    Decoder::new(bytes.to_vec())
}

/// Decodes one event from `bytes`, which must hold exactly that event.
fn decode_single(bytes: &[u8]) -> Event {
    let mut d = decoder(bytes);
    let e = d.next_event().unwrap();
    assert!(d.finish().is_ok());
    e
}

/// Checks that `bytes` ends inside its first event.
fn decode_small(bytes: &[u8]) {
    let mut d = decoder(bytes);
    assert_eq!(d.next_event(), Err(DecodeError::Insufficient));
    assert!(!d.ready_to_finish());
}

fn encode(events: Vec<Event>) -> Vec<u8> {
    let mut e = Encoder::new(Vec::new());
    for event in events {
        e.feed_event(event).unwrap();
    }
    e.into_inner()
}

/// Encodes `events`, checking after each one whether the encoder is ready to finish.
fn encode_checked(events: Vec<Event>, ready_after: &[bool]) -> Vec<u8> {
    let mut e = Encoder::new(Vec::new());
    for (idx, event) in events.into_iter().enumerate() {
        e.feed_event(event).unwrap();
        assert_eq!(e.ready_to_finish(), ready_after[idx], "after event #{}", idx);
    }
    assert!(e.ready_to_finish());
    e.into_inner()
}

fn half_value(bits: u16) -> f64 {
    half::f16::from_bits(bits).to_f64()
}

#[test]
fn streaming_decode_uint_tiny() {
    for i in 0..=0x17u8 {
        assert_eq!(decode_single(&[i]), Event::Unsigned(i as u64));
    }
}

#[test]
fn streaming_encode_uint_tiny() {
    for i in 0..=0x17u8 {
        assert_eq!(encode(vec![Event::Unsigned(i as u64)]), vec![i]);
    }
}

#[test]
fn streaming_decode_uint_8bit() {
    assert_eq!(decode_single(&[0x18, 0x01]), Event::Unsigned(0x01));
}

#[test]
fn streaming_decode_uint_8bit_bounds() {
    decode_small(b"\x18");
}

#[test]
fn streaming_encode_uint_8bit() {
    assert_eq!(encode(vec![Event::Unsigned(0x3F)]), vec![0x18, 0x3F]);
}

#[test]
fn streaming_decode_uint_16bit() {
    assert_eq!(decode_single(&[0x19, 0x01, 0x02]), Event::Unsigned(0x0102));
}

#[test]
fn uint_16bit_round_trip() {
    let bytes = encode(vec![Event::Unsigned(0x1234)]);
    assert_eq!(bytes, vec![0x19, 0x12, 0x34]);
    assert_eq!(decode_single(&bytes), Event::Unsigned(0x1234));
}

#[test]
fn streaming_decode_uint_16bit_bounds() {
    decode_small(b"\x19\x00");
}

#[test]
fn streaming_encode_uint_16bit() {
    assert_eq!(encode(vec![Event::Unsigned(0x1234)]), vec![0x19, 0x12, 0x34]);
}

#[test]
fn streaming_decode_uint_32bit() {
    assert_eq!(decode_single(&[0x1A, 0x01, 0x02, 0x03, 0x04]), Event::Unsigned(0x01020304));
}

#[test]
fn streaming_decode_uint_32bit_bounds() {
    decode_small(b"\x1A\x00\x00\x00");
}

#[test]
fn streaming_encode_uint_32bit() {
    assert_eq!(
        encode(vec![Event::Unsigned(0x12345678)]),
        vec![0x1A, 0x12, 0x34, 0x56, 0x78]
    );
}

#[test]
fn streaming_decode_uint_64bit() {
    assert_eq!(
        decode_single(&[0x1B, 0x01, 0x02, 0x03, 0x04, 0x05, 0x06, 0x07, 0x08]),
        Event::Unsigned(0x0102030405060708)
    );
}

#[test]
fn streaming_decode_uint_64bit_bounds() {
    decode_small(b"\x1B\x00\x00\x00\x00\x00\x00\x00");
}

#[test]
fn streaming_encode_uint_64bit() {
    assert_eq!(
        encode(vec![Event::Unsigned(0x123456789ABCDEF0)]),
        vec![0x1B, 0x12, 0x34, 0x56, 0x78, 0x9A, 0xBC, 0xDE, 0xF0]
    );
}

#[test]
fn streaming_decode_negint() {
    assert_eq!(decode_single(&[0x20]), Event::Signed(0));
    assert_eq!(decode_single(&[0x37]), Event::Signed(0x17));
    assert_eq!(decode_single(&[0x38, 0x01]), Event::Signed(0x01));
    assert_eq!(decode_single(&[0x39, 0x01, 0x02]), Event::Signed(0x0102));
    assert_eq!(decode_single(&[0x3A, 0x01, 0x02, 0x03, 0x04]), Event::Signed(0x01020304));
    assert_eq!(
        decode_single(&[0x3B, 0x01, 0x02, 0x03, 0x04, 0x05, 0x06, 0x07, 0x08]),
        Event::Signed(0x0102030405060708)
    );
    decode_small(b"\x3B\x00\x00\x00\x00\x00\x00\x00");
}

#[test]
fn streaming_encode_negint() {
    assert_eq!(encode(vec![Event::Signed(0)]), vec![0x20]);
    assert_eq!(encode(vec![Event::Signed(0x17)]), vec![0x37]);
    assert_eq!(encode(vec![Event::Signed(0xAA)]), vec![0x38, 0xAA]);
    assert_eq!(encode(vec![Event::Signed(0x0102)]), vec![0x39, 0x01, 0x02]);
    assert_eq!(encode(vec![Event::Signed(0x01020304)]), vec![0x3A, 0x01, 0x02, 0x03, 0x04]);
    assert_eq!(
        encode(vec![Event::Signed(0x010203040506)]),
        vec![0x3B, 0x00, 0x00, 0x01, 0x02, 0x03, 0x04, 0x05, 0x06]
    );
}

#[test]
fn streaming_interpret_signed() {
    assert_eq!(Event::interpret_signed(0), -1);
    assert_eq!(Event::interpret_signed_checked(0), Some(-1));
    assert_eq!(Event::interpret_signed_checked(u64::MAX), None);
    assert_eq!(Event::interpret_signed_wide(0), -1);
    assert_eq!(Event::interpret_signed_wide(u64::MAX), -1 - u64::MAX as i128);
}

#[test]
fn streaming_create_signed() {
    assert!(matches!(Event::create_signed(0), Event::Unsigned(0)));
    assert!(matches!(Event::create_signed(22), Event::Unsigned(22)));
    assert!(matches!(Event::create_signed(-1), Event::Signed(0)));
    assert!(matches!(Event::create_signed(-22), Event::Signed(21)));
}

#[test]
fn interpret_signed_wraps_and_checks_at_the_i64_edge() {
    // 2^63 - 1 is the largest payload whose value, -2^63, fits an i64.
    assert_eq!(Event::interpret_signed(i64::MAX as u64), i64::MIN);
    assert_eq!(Event::interpret_signed_checked(i64::MAX as u64), Some(i64::MIN));
    assert_eq!(Event::interpret_signed_checked(i64::MAX as u64 + 1), None);
    // Past it the value wraps modulo 2^64.
    assert_eq!(Event::interpret_signed(i64::MAX as u64 + 1), i64::MAX);
    assert_eq!(Event::interpret_signed(u64::MAX), 0);
    assert_eq!(Event::interpret_signed_wide(i64::MAX as u64 + 1), -(1i128 << 63) - 1);
    assert_eq!(Event::interpret_signed_wide(u64::MAX), -(1i128 << 64));
}

#[test]
fn create_signed_wide_covers_the_cbor_integer_range() {
    assert_eq!(Event::create_signed_wide(-(1i128 << 64)), Some(Event::Signed(u64::MAX)));
    assert_eq!(Event::create_signed_wide(-(1i128 << 64) - 1), None);
    assert_eq!(Event::create_signed_wide(u64::MAX as i128), Some(Event::Unsigned(u64::MAX)));
    assert_eq!(Event::create_signed_wide(u64::MAX as i128 + 1), None);
    assert_eq!(Event::create_signed_wide(-5), Some(Event::Signed(4)));
    assert_eq!(Event::create_signed(i64::MIN), Event::Signed(i64::MAX as u64));
}

#[test]
fn streaming_decode_bytes() {
    assert_eq!(decode_single(&[0x40]), Event::ByteString(b"".to_vec()));
    assert_eq!(decode_single(b"\x45Hello"), Event::ByteString(b"Hello".to_vec()));
    assert_eq!(decode_single(b"\x58\x04Halo"), Event::ByteString(b"Halo".to_vec()));
    assert_eq!(decode_single(b"\x59\x00\x07Goodbye"), Event::ByteString(b"Goodbye".to_vec()));
    assert_eq!(
        decode_single(b"\x5A\x00\x00\x00\x0DLong message!"),
        Event::ByteString(b"Long message!".to_vec())
    );
    assert_eq!(
        decode_single(b"\x5B\x00\x00\x00\x00\x00\x00\x00\x01?"),
        Event::ByteString(b"?".to_vec())
    );
}

fn check_long_prefix(size: usize, prefix: &[u8], text: bool) {
    let output = if text {
        let input = "A".repeat(size);
        encode(vec![Event::TextString(input)])
    } else {
        encode(vec![Event::ByteString(vec![0x0F; size])])
    };
    assert_eq!(&output[..prefix.len()], prefix);
    assert_eq!(output.len(), prefix.len() + size);
    let fill = if text { b'A' } else { 0x0F };
    assert!(output[prefix.len()..].iter().all(|b| *b == fill));
}

#[test]
fn streaming_encode_bytes() {
    assert_eq!(encode(vec![Event::ByteString(b"".to_vec())]), b"\x40".to_vec());
    assert_eq!(encode(vec![Event::ByteString(b"abcd".to_vec())]), b"\x44abcd".to_vec());
    check_long_prefix(0x30, &[0x58, 0x30], false);
    check_long_prefix(0x02FA, &[0x59, 0x02, 0xFA], false);
    check_long_prefix(0x010000, &[0x5A, 0x00, 0x01, 0x00, 0x00], false);
}

#[test]
fn streaming_decode_bytes_segmented() {
    let mut d = decoder(b"\x5F\x44abcd\x43efg\xFF");
    assert_eq!(d.next_event(), Ok(Event::UnknownLengthByteString));
    assert!(!d.ready_to_finish());
    assert_eq!(d.next_event(), Ok(Event::ByteString(b"abcd".to_vec())));
    assert!(!d.ready_to_finish());
    assert_eq!(d.next_event(), Ok(Event::ByteString(b"efg".to_vec())));
    assert!(!d.ready_to_finish());
    assert_eq!(d.next_event(), Ok(Event::Break));
    assert!(d.ready_to_finish());
}

#[test]
fn streaming_decode_bytes_segmented_small() {
    let mut d = decoder(b"\x5F\x44abcd");
    assert_eq!(d.next_event(), Ok(Event::UnknownLengthByteString));
    assert_eq!(d.next_event(), Ok(Event::ByteString(b"abcd".to_vec())));
    assert_eq!(d.next_event(), Err(DecodeError::Insufficient));
    assert!(!d.ready_to_finish());
}

#[test]
fn streaming_encode_bytes_segmented() {
    let out = encode_checked(
        vec![
            Event::UnknownLengthByteString,
            Event::ByteString(b"abcd".to_vec()),
            Event::ByteString(b"efg".to_vec()),
            Event::Break,
        ],
        &[false, false, false, true],
    );
    assert_eq!(out, b"\x5F\x44abcd\x43efg\xFF".to_vec());
}

#[test]
fn streaming_decode_text() {
    assert_eq!(decode_single(&[0x60]), Event::TextString(String::new()));
    assert_eq!(decode_single(b"\x65Hello"), Event::TextString("Hello".to_string()));
    assert_eq!(decode_single(b"\x78\x04Halo"), Event::TextString("Halo".to_string()));
    assert_eq!(decode_single(b"\x79\x00\x07Goodbye"), Event::TextString("Goodbye".to_string()));
    assert_eq!(
        decode_single(b"\x7A\x00\x00\x00\x0DLong message!"),
        Event::TextString("Long message!".to_string())
    );
    assert_eq!(
        decode_single(b"\x7B\x00\x00\x00\x00\x00\x00\x00\x01?"),
        Event::TextString("?".to_string())
    );
}

#[test]
fn streaming_decode_text_64bit_bounds() {
    decode_small(b"\x7B\x00\x00\x00\x00\x00\x00\x00");
    decode_small(b"\x7B\x00\x00\x00\x00\x00\x00\x00\x01");
}

#[test]
fn encode_text() {
    assert_eq!(encode(vec![Event::TextString(String::new())]), b"\x60".to_vec());
    assert_eq!(encode(vec![Event::TextString("abcd".to_string())]), b"\x64abcd".to_vec());
    check_long_prefix(0x30, &[0x78, 0x30], true);
    check_long_prefix(0x02FA, &[0x79, 0x02, 0xFA], true);
    check_long_prefix(0x010000, &[0x7A, 0x00, 0x01, 0x00, 0x00], true);
}

#[test]
fn streaming_decode_text_segmented() {
    let mut d = decoder(b"\x7F\x64abcd\x63efg\xFF");
    assert_eq!(d.next_event(), Ok(Event::UnknownLengthTextString));
    assert!(!d.ready_to_finish());
    assert_eq!(d.next_event(), Ok(Event::TextString("abcd".to_string())));
    assert!(!d.ready_to_finish());
    assert_eq!(d.next_event(), Ok(Event::TextString("efg".to_string())));
    assert!(!d.ready_to_finish());
    assert_eq!(d.next_event(), Ok(Event::Break));
    assert!(d.ready_to_finish());
}

#[test]
fn streaming_decode_text_segmented_small() {
    let mut d = decoder(b"\x7F\x64abcd");
    assert_eq!(d.next_event(), Ok(Event::UnknownLengthTextString));
    assert_eq!(d.next_event(), Ok(Event::TextString("abcd".to_string())));
    assert_eq!(d.next_event(), Err(DecodeError::Insufficient));
    assert!(!d.ready_to_finish());
}

#[test]
fn streaming_decode_text_invalid() {
    let mut d = decoder(b"\x62\xFF\xFF");
    match d.next_event() {
        Err(DecodeError::InvalidUtf8(bytes)) => assert_eq!(bytes, vec![0xFF, 0xFF]),
        _ => panic!("accepted invalid UTF-8"),
    }
}

#[test]
fn encode_text_segmented() {
    let out = encode_checked(
        vec![
            Event::UnknownLengthTextString,
            Event::TextString("abcd".to_string()),
            Event::TextString("efg".to_string()),
            Event::Break,
        ],
        &[false, false, false, true],
    );
    assert_eq!(out, b"\x7F\x64abcd\x63efg\xFF".to_vec());
}

#[test]
fn encode_text_counts_utf8_bytes() {
    assert_eq!(
        encode(vec![Event::TextString("\u{e9}\u{1F600}".to_string())]),
        vec![0x66, 0xC3, 0xA9, 0xF0, 0x9F, 0x98, 0x80]
    );
    assert_eq!(
        decode_single(&[0x66, 0xC3, 0xA9, 0xF0, 0x9F, 0x98, 0x80]),
        Event::TextString("\u{e9}\u{1F600}".to_string())
    );
}

/// Reads `n` events that must all succeed, checking readiness after each.
fn read_events(d: &mut Decoder, ready_after: &[bool]) {
    for (idx, ready) in ready_after.iter().enumerate() {
        assert!(d.next_event().is_ok(), "event #{}", idx);
        assert_eq!(d.ready_to_finish(), *ready, "after event #{}", idx);
    }
}

#[test]
fn streaming_decode_array() {
    let mut d = decoder(b"\x84\0\x01\x02\x03");
    assert_eq!(d.next_event(), Ok(Event::Array(4)));
    assert!(!d.ready_to_finish());
    read_events(&mut d, &[false, false, false, true]);

    let mut d = decoder(b"\x80");
    assert_eq!(d.next_event(), Ok(Event::Array(0)));
    assert!(d.ready_to_finish());
}

#[test]
fn streaming_encode_array() {
    let out = encode_checked(
        vec![Event::Array(3), Event::Unsigned(1), Event::Unsigned(2), Event::Unsigned(3)],
        &[false, false, false, true],
    );
    assert_eq!(out, b"\x83\x01\x02\x03".to_vec());
}

#[test]
fn streaming_decode_array_segmented() {
    let mut d = decoder(b"\x9F\x00\x00\x00\xFF");
    assert_eq!(d.next_event(), Ok(Event::UnknownLengthArray));
    assert!(!d.ready_to_finish());
    read_events(&mut d, &[false, false, false]);
    assert_eq!(d.next_event(), Ok(Event::Break));
    assert!(d.ready_to_finish());
}

#[test]
fn encode_array_segmented() {
    let out = encode_checked(
        vec![
            Event::UnknownLengthArray,
            Event::Unsigned(1),
            Event::Unsigned(2),
            Event::Unsigned(3),
            Event::Break,
        ],
        &[false, false, false, false, true],
    );
    assert_eq!(out, b"\x9F\x01\x02\x03\xFF".to_vec());
}

#[test]
fn streaming_decode_map() {
    let mut d = decoder(b"\xA2\x01\x02\x03\x04");
    assert_eq!(d.next_event(), Ok(Event::SizedMap(2)));
    assert!(!d.ready_to_finish());
    read_events(&mut d, &[false, false, false, true]);

    let mut d = decoder(b"\xA0");
    assert_eq!(d.next_event(), Ok(Event::SizedMap(0)));
    assert!(d.ready_to_finish());
}

#[test]
fn streaming_encode_map() {
    let out = encode_checked(
        vec![
            Event::SizedMap(2),
            Event::Unsigned(0),
            Event::TextString("a".to_string()),
            Event::Unsigned(1),
            Event::TextString("b".to_string()),
        ],
        &[false, false, false, false, true],
    );
    assert_eq!(out, b"\xA2\x00\x61a\x01\x61b".to_vec());
}

#[test]
fn streaming_decode_map_segmented() {
    let mut d = decoder(b"\xBF\x00\x00\x00\x00\xFF");
    assert_eq!(d.next_event(), Ok(Event::UnknownLengthMap));
    assert!(!d.ready_to_finish());
    read_events(&mut d, &[false, false, false, false]);
    assert_eq!(d.next_event(), Ok(Event::Break));
    assert!(d.ready_to_finish());
}

#[test]
fn encode_map_segmented() {
    let out = encode_checked(
        vec![
            Event::UnknownLengthMap,
            Event::Unsigned(0),
            Event::TextString("a".to_string()),
            Event::Unsigned(1),
            Event::TextString("b".to_string()),
            Event::Break,
        ],
        &[false, false, false, false, false, true],
    );
    assert_eq!(out, b"\xBF\x00\x61a\x01\x61b\xFF".to_vec());
}

#[test]
fn streaming_decode_map_segmented_odd() {
    let mut d = decoder(b"\xBF\x00\xFF");
    assert_eq!(d.next_event(), Ok(Event::UnknownLengthMap));
    assert!(d.next_event().is_ok());
    assert!(!d.ready_to_finish());
    assert_eq!(d.next_event(), Err(DecodeError::Malformed));
}

#[test]
fn encode_map_odd_break_is_refused() {
    let mut e = Encoder::new(Vec::new());
    e.feed_event(Event::UnknownLengthMap).unwrap();
    e.feed_event(Event::Unsigned(0)).unwrap();
    assert!(!e.ready_to_finish());
    assert_eq!(e.feed_event(Event::Break), Err(EncodeError::InvalidBreak));
    assert!(!e.ready_to_finish());
    assert_eq!(e.into_inner(), vec![0xBF, 0x00]);
}

#[test]
fn stray_break_is_malformed() {
    let mut d = decoder(b"\xFF");
    assert_eq!(d.next_event(), Err(DecodeError::Malformed));
    assert!(!d.ready_to_finish());
    // A break inside a definite array or after a tag is stray too.
    let mut d = decoder(b"\x81\xFF");
    assert_eq!(d.next_event(), Ok(Event::Array(1)));
    assert_eq!(d.next_event(), Err(DecodeError::Malformed));
    let mut d = decoder(b"\x5F\xC1\xFF");
    assert_eq!(d.next_event(), Ok(Event::UnknownLengthByteString));
    assert_eq!(d.next_event(), Ok(Event::Tag(1)));
    assert_eq!(d.next_event(), Err(DecodeError::Malformed));
    let mut e = Encoder::new(Vec::new());
    assert_eq!(e.feed_event(Event::Break), Err(EncodeError::InvalidBreak));
    assert_eq!(e.into_inner(), Vec::<u8>::new());
}

#[test]
fn streaming_decode_tag() {
    let mut d = decoder(b"\xC1\x00");
    assert_eq!(d.next_event(), Ok(Event::Tag(1)));
    assert!(!d.ready_to_finish());
    read_events(&mut d, &[true]);
}

#[test]
fn streaming_encode_tag() {
    let out = encode_checked(vec![Event::Tag(1), Event::Unsigned(0)], &[false, true]);
    assert_eq!(out, b"\xC1\x00".to_vec());
}

#[test]
fn streaming_decode_simple_tiny() {
    for n in 0..=23u8 {
        assert_eq!(decode_single(&[0xE0 | n]), Event::Simple(n));
    }
}

#[test]
fn encode_simple_tiny() {
    for n in 0..=23u8 {
        assert_eq!(encode(vec![Event::Simple(n)]), vec![0xE0 | n]);
    }
}

#[test]
fn streaming_decode_simple_8bit() {
    for n in 24..=255u8 {
        assert_eq!(decode_single(&[0xF8, n]), Event::Simple(n));
    }
}

#[test]
fn encode_simple_8bit() {
    for n in 24..=255u8 {
        assert_eq!(encode(vec![Event::Simple(n)]), vec![0xF8, n]);
    }
}

#[test]
fn decode_simple_two_byte_below_24_is_malformed() {
    let mut d = decoder(&[0xF8, 0x17]);
    assert_eq!(d.next_event(), Err(DecodeError::Malformed));
}

#[test]
fn decode_reserved_additional_information_is_malformed() {
    for initial in [0x1Cu8, 0x3D, 0x5E, 0xFC, 0xFD, 0xFE, 0x1F, 0x3F, 0xDF] {
        let mut d = decoder(&[initial, 0, 0, 0, 0, 0, 0, 0, 0]);
        assert_eq!(d.next_event(), Err(DecodeError::Malformed), "{:X}", initial);
    }
}

#[test]
fn streaming_decode_float_64bit() {
    let e = decode_single(b"\xFB\x7F\xF0\x00\x00\x00\x00\x00\x00");
    assert_eq!(e, Event::Float(FloatBits::Double(0x7FF0_0000_0000_0000)));
    assert_eq!(f64::from_bits(0x7FF0_0000_0000_0000), f64::INFINITY);
}

#[test]
fn streaming_decode_float_32bit() {
    let e = decode_single(b"\xFA\x3F\x80\x00\x00");
    assert_eq!(e, Event::Float(FloatBits::Single(0x3F80_0000)));
    assert_eq!(f32::from_bits(0x3F80_0000) as f64, 1.0);
}

#[test]
fn streaming_decode_float_16bit() {
    let e = decode_single(b"\xF9\x00\x00");
    assert_eq!(e, Event::Float(FloatBits::Half(0)));
    assert_eq!(half_value(0), 0.0);
}

#[test]
fn encode_float_widths() {
    assert_eq!(encode(vec![Event::Float(FloatBits::Half(0x7C00))]), b"\xF9\x7C\x00".to_vec());
    assert_eq!(encode(vec![Event::Float(FloatBits::Half(0x3C00))]), b"\xF9\x3C\x00".to_vec());
    assert_eq!(
        encode(vec![Event::Float(FloatBits::Single(0x3F7F_FFFF))]),
        b"\xFA\x3F\x7F\xFF\xFF".to_vec()
    );
    assert_eq!(
        encode(vec![Event::Float(FloatBits::Double(1.0000000000000002f64.to_bits()))]),
        b"\xFB\x3F\xF0\x00\x00\x00\x00\x00\x01".to_vec()
    );
}

#[test]
fn event_sequences_round_trip() {
    let events = vec![
        Event::UnknownLengthMap,
        Event::TextString("k".to_string()),
        Event::Array(2),
        Event::Signed(u64::MAX),
        Event::Tag(0x1_0000),
        Event::Float(FloatBits::Single(0x4049_0FDB)),
        Event::ByteString(vec![1, 2, 3]),
        Event::UnknownLengthTextString,
        Event::TextString("ab".to_string()),
        Event::Break,
        Event::Break,
    ];
    let bytes = encode(events.clone());
    let mut d = Decoder::new(bytes);
    for e in events {
        assert_eq!(d.next_event(), Ok(e));
    }
    assert!(d.ready_to_finish());
    assert_eq!(d.finish(), Ok(vec![]));
}

#[test]
fn finish_hands_back_the_rest() {
    let mut d = decoder(b"\x01\x02\x03");
    assert_eq!(d.next_event(), Ok(Event::Unsigned(1)));
    assert_eq!(d.finish(), Ok(vec![0x02, 0x03]));

    let mut d = decoder(b"\x81\x19\x01");
    assert_eq!(d.next_event(), Ok(Event::Array(1)));
    assert_eq!(d.next_event(), Err(DecodeError::Insufficient));
    assert_eq!(d.force_finish(), vec![0x19, 0x01]);

    let mut d = decoder(b"\x81\x01");
    assert_eq!(d.next_event(), Ok(Event::Array(1)));
    assert_eq!(d.finish(), Err(DecodeError::Insufficient));
}

#[test]
fn into_owned_keeps_the_event() {
    let e = Event::ByteString(vec![9, 8]);
    assert_eq!(e.clone().into_owned(), e);
}

#[test]
fn decoding_goes_on_after_more_input() {
    let mut d = decoder(b"\x82\x19\x12");
    assert_eq!(d.next_event(), Ok(Event::Array(2)));
    assert_eq!(d.next_event(), Err(DecodeError::Insufficient));
    assert!(!d.ready_to_finish());
    d.feed(b"\x34\x01");
    assert_eq!(d.next_event(), Ok(Event::Unsigned(0x1234)));
    assert_eq!(d.next_event(), Ok(Event::Unsigned(1)));
    assert!(d.ready_to_finish());
}

#[test]
fn shortfall_counts_the_missing_bytes() {
    assert_eq!(decoder(b"").shortfall(), 1);
    assert_eq!(decoder(b"\x18").shortfall(), 1);
    assert_eq!(decoder(b"\x19\x00").shortfall(), 1);
    assert_eq!(decoder(b"\x1B\x00").shortfall(), 7);
    assert_eq!(decoder(b"\x7B\x00\x00\x00\x00\x00\x00\x00\x01").shortfall(), 1);
    assert_eq!(decoder(b"\x59\x01\x00ab").shortfall(), 254);
    assert_eq!(decoder(b"\xFA\x3F").shortfall(), 3);
    assert_eq!(decoder(b"\x01").shortfall(), 0);
    assert_eq!(decoder(b"\x45Hello").shortfall(), 0);
    assert_eq!(decoder(b"\x1C").shortfall(), 0);
}

#[test]
fn insufficient_keeps_the_decoder_unfinished_until_fed() {
    let mut d = decoder(b"\x19\x12");
    assert_eq!(d.next_event(), Err(DecodeError::Insufficient));
    assert!(!d.ready_to_finish());
    assert_eq!(d.shortfall(), 1);
    d.feed(b"\x34");
    assert_eq!(d.shortfall(), 0);
    assert_eq!(d.next_event(), Ok(Event::Unsigned(0x1234)));
    assert!(d.ready_to_finish());
}

#[test]
fn take_output_hands_out_bytes_as_written() {
    let mut e = Encoder::new(Vec::new());
    e.feed_event(Event::Array(2)).unwrap();
    assert_eq!(e.take_output(), vec![0x82]);
    e.feed_event(Event::Unsigned(1)).unwrap();
    assert!(!e.ready_to_finish());
    e.feed_event(Event::Unsigned(2)).unwrap();
    assert_eq!(e.take_output(), vec![0x01, 0x02]);
    assert!(e.ready_to_finish());
    assert_eq!(e.into_inner(), Vec::<u8>::new());
}

#[test]
fn decoding_what_was_encoded_ends_as_ready_as_the_encoder() {
    let events = vec![
        Event::UnknownLengthArray,
        Event::SizedMap(1),
        Event::Simple(20),
        Event::Float(FloatBits::Half(0x7C00)),
    ];
    let mut enc = Encoder::new(Vec::new());
    for e in events.clone() {
        enc.feed_event(e).unwrap();
    }
    let enc_ready = enc.ready_to_finish();
    let mut d = Decoder::new(enc.into_inner());
    for e in events {
        assert_eq!(d.next_event(), Ok(e));
    }
    assert_eq!(d.ready_to_finish(), enc_ready);
    assert!(!enc_ready);
}
