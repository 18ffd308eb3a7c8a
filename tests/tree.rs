use borc::basic::streaming::Encoder as StreamingEncoder;
use borc::basic::tree::{Decoder, Encoder, Item};
use borc::extended::streaming::Encoder as ExtStreamingEncoder;
use borc::errors::DecodeError;
use borc::extended::tree::{Decoder as ExtDecoder, Encoder as ExtEncoder, Item as ExtItem};
use borc::extended::{BigInt, BignumDecodeStyle, DateTime, DateTimeDecodeStyle};

fn ext_decode(bytes: &[u8]) -> Result<ExtItem, DecodeError> {
    ExtDecoder::new().decode(bytes.to_vec())
}

fn ext_encode(item: &ExtItem) -> Vec<u8> {
    ExtEncoder::new().encode(item, Vec::new()).unwrap()
}

fn decode(bytes: &[u8]) -> Result<Item, DecodeError> {
    Decoder::new().decode(bytes.to_vec())
}

fn encode(item: &Item) -> Vec<u8> {
    Encoder::new().encode(item, Vec::new()).unwrap()
}

#[test]
fn tree_decode_bytes_segmented() {
    assert_eq!(ext_decode(b"\x5F\x42ab\x42cd\xFF"), Ok(ExtItem::ByteString(b"abcd".to_vec())));
    assert_eq!(ext_decode(b"\x5F\xFF"), Ok(ExtItem::ByteString(b"".to_vec())));
    assert_eq!(decode(b"\x5F\x42ab\x42cd\xFF"), Ok(Item::ByteString(b"abcd".to_vec())));
    assert_eq!(decode(b"\x5F\xFF"), Ok(Item::ByteString(b"".to_vec())));
}

#[test]
fn tree_decode_bytes_segmented_wrong() {
    assert_eq!(ext_decode(b"\x5F\x00"), Err(DecodeError::Malformed));
    assert_eq!(decode(b"\x5F\x00"), Err(DecodeError::Malformed));
}

#[test]
fn tree_decode_text_segmented() {
    assert_eq!(ext_decode(b"\x7F\x62ab\x62cd\xFF"), Ok(ExtItem::TextString("abcd".to_string())));
    assert_eq!(ext_decode(b"\x7F\xFF"), Ok(ExtItem::TextString(String::new())));
    assert_eq!(decode(b"\x7F\x62ab\x62cd\xFF"), Ok(Item::TextString("abcd".to_string())));
    assert_eq!(decode(b"\x7F\xFF"), Ok(Item::TextString(String::new())));
}

#[test]
fn tree_decode_text_segmented_wrong() {
    assert_eq!(ext_decode(b"\x7F\x00"), Err(DecodeError::Malformed));
    assert_eq!(decode(b"\x7F\x00"), Err(DecodeError::Malformed));
}

#[test]
fn tree_decode_array() {
    assert_eq!(ext_decode(b"\x80"), Ok(ExtItem::Array(vec![])));
    assert_eq!(
        ext_decode(b"\x84\x00\x01\x02\x03"),
        Ok(ExtItem::Array([0, 1, 2, 3].map(ExtItem::Unsigned).into_iter().collect()))
    );
    assert_eq!(decode(b"\x80"), Ok(Item::Array(vec![])));
    assert_eq!(
        decode(b"\x84\x00\x01\x02\x03"),
        Ok(Item::Array([0, 1, 2, 3].map(Item::Unsigned).into_iter().collect()))
    );
}

#[test]
fn tree_decode_array_segmented() {
    assert_eq!(ext_decode(b"\x9F\xFF"), Ok(ExtItem::Array(vec![])));
    assert_eq!(
        ext_decode(b"\x9F\x00\x00\xFF"),
        Ok(ExtItem::Array(vec![ExtItem::Unsigned(0), ExtItem::Unsigned(0)]))
    );
    assert_eq!(decode(b"\x9F\xFF"), Ok(Item::Array(vec![])));
    assert_eq!(
        decode(b"\x9F\x00\x00\xFF"),
        Ok(Item::Array(vec![Item::Unsigned(0), Item::Unsigned(0)]))
    );
}

#[test]
fn tree_encode_array() {
    assert_eq!(
        ext_encode(&ExtItem::Array(vec![ExtItem::Unsigned(0), ExtItem::Unsigned(1)])),
        b"\x82\x00\x01".to_vec()
    );
    assert_eq!(
        encode(&Item::Array(vec![Item::Unsigned(0), Item::Unsigned(1)])),
        b"\x82\x00\x01".to_vec()
    );
}

#[test]
fn tree_decode_map() {
    assert_eq!(ext_decode(b"\xA0"), Ok(ExtItem::Dict(vec![])));
    assert_eq!(
        ext_decode(b"\xA1\x00\x01"),
        Ok(ExtItem::Dict(vec![(ExtItem::Unsigned(0), ExtItem::Unsigned(1))]))
    );
    assert_eq!(decode(b"\xA0"), Ok(Item::Dict(vec![])));
    assert_eq!(
        decode(b"\xA1\x00\x01"),
        Ok(Item::Dict(vec![(Item::Unsigned(0), Item::Unsigned(1))]))
    );
}

#[test]
fn tree_decode_map_segmented() {
    assert_eq!(ext_decode(b"\xBF\xFF"), Ok(ExtItem::Dict(vec![])));
    assert_eq!(
        ext_decode(b"\xBF\x00\x01\xFF"),
        Ok(ExtItem::Dict(vec![(ExtItem::Unsigned(0), ExtItem::Unsigned(1))]))
    );
    assert_eq!(decode(b"\xBF\xFF"), Ok(Item::Dict(vec![])));
    assert_eq!(
        decode(b"\xBF\x00\x01\xFF"),
        Ok(Item::Dict(vec![(Item::Unsigned(0), Item::Unsigned(1))]))
    );
}

#[test]
fn tree_decode_map_wrong() {
    assert_eq!(ext_decode(b"\xA1\x00"), Err(DecodeError::Insufficient));
    assert_eq!(ext_decode(b"\xBF\x00\xFF"), Err(DecodeError::Malformed));
    assert_eq!(decode(b"\xA1\x00"), Err(DecodeError::Insufficient));
    assert_eq!(decode(b"\xBF\x00\xFF"), Err(DecodeError::Malformed));
}

#[test]
fn tree_encode_map() {
    assert_eq!(
        ext_encode(&ExtItem::Dict(vec![
            (ExtItem::Unsigned(0), ExtItem::Unsigned(1)),
            (ExtItem::Unsigned(2), ExtItem::Unsigned(3)),
        ])),
        b"\xA2\x00\x01\x02\x03".to_vec()
    );
    assert_eq!(
        encode(&Item::Dict(vec![
            (Item::Unsigned(0), Item::Unsigned(1)),
            (Item::Unsigned(2), Item::Unsigned(3)),
        ])),
        b"\xA2\x00\x01\x02\x03".to_vec()
    );
}

#[test]
fn tree_decode_tag() {
    assert_eq!(decode(b"\xC1\x00"), Ok(Item::Tag(1, Box::new(Item::Unsigned(0)))));
}

#[test]
fn decode_tag_wrong() {
    assert_eq!(decode(b"\xC1"), Err(DecodeError::Insufficient));
    assert_eq!(decode(b"\xC1\xFF"), Err(DecodeError::Malformed));
}

#[test]
fn tree_encode_tag() {
    assert_eq!(encode(&Item::Tag(1, Box::new(Item::Unsigned(0)))), b"\xC1\x00".to_vec());
}

#[test]
fn tree_top_level_break_is_malformed() {
    assert_eq!(decode(b"\xFF"), Err(DecodeError::Malformed));
    assert_eq!(decode(b"\x62\xFF\xFF"), Err(DecodeError::InvalidUtf8(vec![0xFF, 0xFF])));
    assert_eq!(decode(b""), Err(DecodeError::Insufficient));
}

#[test]
fn tree_decode_then_encode_is_canonical() {
    // Indefinite lengths and long heads collapse to the shortest definite form, which
    // decodes to the same item.
    let input = b"\xBF\x7F\x61k\xFF\x9F\x18\x05\x5F\x41a\x41b\xFF\xC1\xF9\x3C\x00\xFF\xFF";
    let item = decode(input).unwrap();
    let canonical = encode(&item);
    assert_eq!(
        canonical,
        b"\xA1\x61k\x83\x05\x42ab\xC1\xF9\x3C\x00".to_vec()
    );
    assert_eq!(decode(&canonical), Ok(item));
}

#[test]
fn tree_item_signed_helpers() {
    assert_eq!(Item::create_signed(-22), Item::Signed(21));
    assert_eq!(Item::create_signed(7), Item::Unsigned(7));
    assert_eq!(Item::create_signed_wide(-(1i128 << 64)), Some(Item::Signed(u64::MAX)));
    assert_eq!(Item::create_signed_wide(1i128 << 64), None);
    assert_eq!(Item::interpret_signed(0), -1);
    assert_eq!(Item::interpret_signed_checked(u64::MAX), None);
    assert_eq!(Item::interpret_signed_wide(u64::MAX), -(1i128 << 64));
}

#[test]
fn extended_tree_folds_tags() {
    let mut d = ExtDecoder::new();
    d.set_date_time_style(DateTimeDecodeStyle::Chrono);
    assert_eq!(d.date_time_style(), &DateTimeDecodeStyle::Chrono);
    let item = d.decode(b"\x82\xC1\x04\xC2\x4A1234567890".to_vec()).unwrap();
    assert_eq!(
        item,
        ExtItem::Array(vec![
            ExtItem::ChronoDateTime(DateTime::from_timestamp(4, 0).unwrap()),
            ExtItem::UnrecognizedTag(2, Box::new(ExtItem::ByteString(b"1234567890".to_vec()))),
        ])
    );
    assert_eq!(ext_encode(&item), b"\x82\xC0\x741970-01-01T00:00:04Z\xC2\x4A1234567890".to_vec());

    let mut d = ExtDecoder::new();
    d.set_bignum_style(BignumDecodeStyle::Num);
    assert_eq!(d.bignum_style(), &BignumDecodeStyle::Num);
    let item = d.decode(b"\xC3\x42\x01\x00".to_vec()).unwrap();
    assert_eq!(item, ExtItem::NumBigInt(BigInt::from_cbor_bytes(true, &vec![1, 0])));
    assert_eq!(ext_encode(&item), b"\x39\x01\x00".to_vec());
    assert_eq!(ExtItem::create_signed(-2), ExtItem::Signed(1));
    assert_eq!(ExtItem::create_signed_wide(3), Some(ExtItem::Unsigned(3)));
    assert_eq!(ExtItem::interpret_signed(3), -4);
    assert_eq!(ExtItem::interpret_signed_checked(3), Some(-4));
    assert_eq!(ExtItem::interpret_signed_wide(3), -4);
}

#[test]
fn tree_collapses_indefinite_byte_string() {
    assert_eq!(decode(b"\x5F\x44abcd\x43efg\xFF"), Ok(Item::ByteString(b"abcdefg".to_vec())));
}

#[test]
fn tree_encoder_leaves_a_ready_encoder_ready() {
    let item = Item::Dict(vec![
        (Item::Unsigned(0), Item::Array(vec![Item::Unsigned(1), Item::Tag(1, Box::new(Item::Unsigned(0)))])),
        (Item::Unsigned(2), Item::Array(vec![])),
    ]);
    let mut enc = StreamingEncoder::new(Vec::new());
    assert!(enc.ready_to_finish());
    Encoder::new().encode_to_stream(&item, &mut enc).unwrap();
    assert!(enc.ready_to_finish());
    assert_eq!(enc.into_inner(), b"\xA2\x00\x82\x01\xC1\x00\x02\x80".to_vec());

    let item = ExtItem::Array(vec![
        ExtItem::ChronoDateTime(DateTime::from_timestamp(4, 0).unwrap()),
        ExtItem::NumBigInt(BigInt::from_cbor_bytes(false, &vec![1, 0, 0, 0, 0, 0, 0, 0, 0])),
    ]);
    let mut enc = ExtStreamingEncoder::new(Vec::new());
    ExtEncoder::new().encode_to_stream(&item, &mut enc).unwrap();
    assert!(enc.ready_to_finish());
}
