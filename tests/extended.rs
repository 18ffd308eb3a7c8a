use borc::errors::DecodeError;
use borc::extended::streaming::{Decoder, Encoder, Event};
use borc::extended::{BigInt, BignumDecodeStyle, DateTime, DateTimeDecodeStyle, DateTimeEncodeStyle};
use borc::basic::streaming::FloatBits;
use chrono::TimeZone;

fn utc(y: i32, mo: u32, d: u32, h: u32, mi: u32, s: u32, milli: u32) -> DateTime {
    let dt = chrono::Utc.with_ymd_and_hms(y, mo, d, h, mi, s).unwrap();
    DateTime::from_timestamp(dt.timestamp(), milli * 1_000_000).unwrap()
}

fn chrono_decoder(bytes: &[u8]) -> Decoder {
    let mut d = Decoder::new(bytes.to_vec());
    d.set_date_time_style(DateTimeDecodeStyle::Chrono);
    d
}

fn encode_one(style: DateTimeEncodeStyle, event: Event) -> Vec<u8> {
    let mut enc = Encoder::new(Vec::new());
    enc.set_date_time_style(style);
    enc.feed_event(event).unwrap();
    assert!(enc.ready_to_finish());
    enc.into_inner()
}

#[test]
fn decode_chrono_text_datetime() {
    assert_eq!(
        chrono_decoder(b"\xC0\x741990-12-31T12:34:56Z").next_event().unwrap(),
        Event::ChronoDateTime(utc(1990, 12, 31, 12, 34, 56, 0))
    );
}

#[test]
fn decode_chrono_text_datetime_unknown_length() {
    assert_eq!(
        chrono_decoder(b"\xC0\x7F\x741990-12-31T12:34:56Z\xFF").next_event().unwrap(),
        Event::ChronoDateTime(utc(1990, 12, 31, 12, 34, 56, 0))
    );
}

#[test]
fn decode_chrono_text_datetime_keeps_the_offset() {
    let e = chrono_decoder(b"\xC0\x78\x191990-12-31T12:34:56+01:00").next_event().unwrap();
    let expected = DateTime::new(utc(1990, 12, 31, 11, 34, 56, 0).timestamp(), 0, 3600).unwrap();
    assert_eq!(e, Event::ChronoDateTime(expected));
}

#[test]
fn decode_chrono_text_datetime_errors() {
    let mut d = chrono_decoder(b"\xC0\x63abc");
    assert_eq!(d.next_event(), Err(DecodeError::InvalidDateTime));
    let mut d = chrono_decoder(b"\xC0\x01");
    assert_eq!(d.next_event(), Err(DecodeError::TagInvalid(0)));
    let mut d = chrono_decoder(b"\xC1\x61a");
    assert_eq!(d.next_event(), Err(DecodeError::TagInvalid(1)));
}

#[test]
fn decode_datetime_style_ignore_passes_tags_through() {
    let mut d = Decoder::new(b"\xC1\x04".to_vec());
    assert_eq!(d.date_time_style(), &DateTimeDecodeStyle::Ignore);
    assert_eq!(d.next_event(), Ok(Event::UnrecognizedTag(1)));
    assert_eq!(d.next_event(), Ok(Event::Unsigned(4)));
    assert!(d.ready_to_finish());
}

#[test]
fn decode_chrono_numeric_datetime() {
    assert_eq!(
        chrono_decoder(b"\xC1\x04").next_event().unwrap(),
        Event::ChronoDateTime(utc(1970, 1, 1, 0, 0, 4, 0))
    );
}

#[test]
fn decode_chrono_numeric_datetime_signed() {
    assert_eq!(
        chrono_decoder(b"\xC1\x20").next_event().unwrap(),
        Event::ChronoDateTime(utc(1969, 12, 31, 23, 59, 59, 0))
    );
}

#[test]
fn decode_numeric_datetime_float_passes_through() {
    let mut d = chrono_decoder(b"\xC1\xFA\x3F\xA0\x00\x00");
    assert_eq!(d.next_event(), Ok(Event::UnrecognizedTag(1)));
    assert_eq!(d.next_event(), Ok(Event::Float(FloatBits::Single(0x3FA0_0000))));
    assert!(d.ready_to_finish());
}

#[test]
fn decode_numeric_datetime_out_of_range() {
    let mut d = chrono_decoder(b"\xC1\x1B\x7F\xFF\xFF\xFF\xFF\xFF\xFF\xFF");
    assert_eq!(d.next_event(), Err(DecodeError::TagInvalid(1)));
    let mut d = chrono_decoder(b"\xC1\x1B\xFF\xFF\xFF\xFF\xFF\xFF\xFF\xFF");
    assert_eq!(d.next_event(), Err(DecodeError::TagInvalid(1)));
}

#[test]
fn encode_chrono_text_datetime() {
    let enc = Encoder::new(Vec::new());
    assert_eq!(enc.date_time_style(), &DateTimeEncodeStyle::PreferText);
    let out = encode_one(
        DateTimeEncodeStyle::PreferText,
        Event::ChronoDateTime(utc(1990, 12, 31, 12, 34, 56, 0)),
    );
    assert_eq!(out, b"\xC0\x741990-12-31T12:34:56Z".to_vec());
}

#[test]
fn encode_chrono_numeric_datetime() {
    let out = encode_one(
        DateTimeEncodeStyle::PreferNumeric,
        Event::ChronoDateTime(utc(1970, 1, 1, 0, 0, 4, 0)),
    );
    assert_eq!(out, b"\xC1\x04".to_vec());
    let out = encode_one(
        DateTimeEncodeStyle::PreferNumeric,
        Event::ChronoDateTime(utc(1969, 12, 31, 23, 59, 59, 0)),
    );
    assert_eq!(out, b"\xC1\x20".to_vec());
}

#[test]
fn encode_chrono_text_datetime_fractional() {
    let out = encode_one(
        DateTimeEncodeStyle::PreferText,
        Event::ChronoDateTime(utc(1876, 4, 22, 13, 22, 1, 500)),
    );
    assert_eq!(out, b"\xC0\x78\x181876-04-22T13:22:01.500Z".to_vec());
}

#[test]
fn encode_numeric_datetime_with_fraction_is_written_as_text() {
    let out = encode_one(
        DateTimeEncodeStyle::PreferNumeric,
        Event::ChronoDateTime(utc(1970, 1, 1, 0, 0, 0, 500)),
    );
    assert_eq!(out, b"\xC0\x78\x181970-01-01T00:00:00.500Z".to_vec());
}

#[test]
fn decode_bignum_convert() {
    let mut decoder = Decoder::new(b"\xC2\x40".to_vec());
    assert_eq!(decoder.bignum_style(), &BignumDecodeStyle::Convert);
    assert_eq!(decoder.next_event().unwrap(), Event::Unsigned(0));

    let mut decoder = Decoder::new(b"\xC2\x42\x01\x00".to_vec());
    assert_eq!(decoder.next_event().unwrap(), Event::Unsigned(256));

    let mut decoder = Decoder::new(b"\xC2\x4A1234567890".to_vec());
    assert_eq!(decoder.next_event().unwrap(), Event::UnrecognizedTag(2));
    assert_eq!(decoder.next_event().unwrap(), Event::ByteString(b"1234567890".to_vec()));
    assert!(matches!(decoder.next_event(), Err(DecodeError::Insufficient)));
}

#[test]
fn decode_bignum_convert_negative_and_segmented() {
    let mut decoder = Decoder::new(b"\xC3\x42\x01\x00".to_vec());
    assert_eq!(decoder.next_event().unwrap(), Event::Signed(256));
    let mut decoder = Decoder::new(b"\xC3\x40".to_vec());
    assert_eq!(decoder.next_event().unwrap(), Event::Signed(0));
    let mut decoder = Decoder::new(b"\xC2\x5F\x41\x00\x42\x01\x02\xFF".to_vec());
    assert_eq!(decoder.next_event().unwrap(), Event::Unsigned(0x0102));
    assert!(decoder.ready_to_finish());
    let mut decoder = Decoder::new(b"\xC2\x01".to_vec());
    assert_eq!(decoder.next_event(), Err(DecodeError::Malformed));
}

#[test]
fn decode_bignum_force_convert() {
    let mut decoder = Decoder::new(b"\xC2\x4A1234567890".to_vec());
    decoder.set_bignum_style(BignumDecodeStyle::ForceConvert);
    match decoder.next_event() {
        Err(DecodeError::OversizedBignum) => (),
        other => panic!("got {other:?}"),
    }
}

#[test]
fn decode_bignum_num() {
    let mut decoder = Decoder::new(b"\xC2\x4A1234567890".to_vec());
    decoder.set_bignum_style(BignumDecodeStyle::Num);
    assert_eq!(
        decoder.next_event().unwrap(),
        Event::NumBigInt(BigInt::from_cbor_bytes(false, &b"1234567890".to_vec()))
    );

    let mut decoder = Decoder::new(b"\xC3\x4A1234567890".to_vec());
    decoder.set_bignum_style(BignumDecodeStyle::Num);
    assert_eq!(
        decoder.next_event().unwrap(),
        Event::NumBigInt(BigInt::from_cbor_bytes(true, &b"1234567890".to_vec()))
    );
}

fn encode_bignum(negative: bool, magnitude: &[u8]) -> Vec<u8> {
    encode_one(
        DateTimeEncodeStyle::PreferText,
        Event::NumBigInt(BigInt::from_cbor_bytes(negative, &magnitude.to_vec())),
    )
}

#[test]
fn encode_bignum_num() {
    // 0
    assert_eq!(encode_bignum(false, b""), b"\0".to_vec());
    // 2^64
    assert_eq!(encode_bignum(false, b"\x01\0\0\0\0\0\0\0\0"), b"\xC2\x49\x01\0\0\0\0\0\0\0\0".to_vec());
    // -1
    assert_eq!(encode_bignum(true, b""), b"\x20".to_vec());
    // -2^64
    assert_eq!(
        encode_bignum(true, b"\xFF\xFF\xFF\xFF\xFF\xFF\xFF\xFF"),
        b"\x3B\xFF\xFF\xFF\xFF\xFF\xFF\xFF\xFF".to_vec()
    );
    // -2^64 - 1
    assert_eq!(encode_bignum(true, b"\x01\0\0\0\0\0\0\0\0"), b"\xC3\x49\x01\0\0\0\0\0\0\0\0".to_vec());
}

#[test]
fn bignum_strips_leading_zeros() {
    let b = BigInt::from_cbor_bytes(false, &vec![0, 0, 5, 0]);
    assert_eq!(b.magnitude(), &vec![5, 0]);
    assert!(!b.is_negative());
    assert_eq!(encode_bignum(false, &[0, 0, 0, 0, 0, 0, 0, 0, 0, 7]), b"\x07".to_vec());
}

#[test]
fn extended_passes_basic_events_through() {
    let mut enc = Encoder::new(Vec::new());
    for e in [Event::UnknownLengthArray, Event::UnrecognizedTag(100), Event::Simple(21), Event::Break] {
        enc.feed_event(e).unwrap();
    }
    let bytes = enc.into_inner();
    assert_eq!(bytes, b"\x9F\xD8\x64\xF5\xFF".to_vec());
    let mut d = Decoder::new(bytes);
    assert_eq!(d.next_event(), Ok(Event::UnknownLengthArray));
    assert_eq!(d.next_event(), Ok(Event::UnrecognizedTag(100)));
    assert_eq!(d.next_event(), Ok(Event::Simple(21)));
    assert_eq!(d.next_event(), Ok(Event::Break));
    assert_eq!(d.finish(), Ok(vec![]));
}

#[test]
fn extended_signed_helpers() {
    assert_eq!(Event::create_signed(-3), Event::Signed(2));
    assert_eq!(Event::create_signed_wide(1i128 << 64), None);
    assert_eq!(Event::interpret_signed_checked(5), Some(-6));
    assert_eq!(Event::interpret_signed_wide(1), -2);
    assert_eq!(Event::interpret_signed(1), -2);
    assert_eq!(Event::Signed(1).into_owned(), Event::Signed(1));
}

#[test]
fn extended_decoding_goes_on_after_more_input() {
    let mut d = Decoder::new(b"\xC2\x42\x01".to_vec());
    assert_eq!(d.next_event(), Err(DecodeError::Insufficient));
    d.feed(b"\x00");
    // The tag was taken before the byte string ran short.
    assert_eq!(d.next_event(), Ok(Event::ByteString(vec![1, 0])));
}
