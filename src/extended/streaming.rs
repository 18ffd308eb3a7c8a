//! Event-level CBOR with extensions: a decoder that folds tagged date-times and bignums
//! into events of their own, and an encoder that writes those events as tagged items.
use crate::basic::laws::encode_events;
use crate::basic::streaming::{
    parse_event, stack_after, Decoder as BasicDecoder, Encoder as BasicEncoder,
    Event as BasicEvent, EventModel, FloatBits, Parsed, Pending,
};
use crate::basic::tree::{
    parse_byte_chunks, parse_text_chunks, read_byte_chunks, read_text_chunks, ItemModel,
    TreeFailure, TreeParsed,
};
use crate::errors::{DecodeError, EncodeError};
use crate::extended::{
    instant_exists, leading_zeros, offset_valid, strip_zeros, BigInt, BignumDecodeStyle,
    DateTime, DateTimeDecodeStyle, DateTimeEncodeStyle, DecodeExtensionConfig,
    EncodeExtensionConfig,
};
use crate::read_ints::{be_value, read_be};
use vstd::prelude::*;

verus! {

/// One event of CBOR with extensions.
#[derive(Debug, Clone, PartialEq, Eq)]
#[non_exhaustive]
pub enum Event {
    /// An unsigned integer.
    Unsigned(u64),
    /// A negative integer whose value is -1 minus the payload.
    Signed(u64),
    /// A byte string of known length.
    ByteString(Vec<u8>),
    /// The start of a byte string of unknown length.
    UnknownLengthByteString,
    /// A text string of known length.
    TextString(String),
    /// The start of a text string of unknown length.
    UnknownLengthTextString,
    /// The start of an array with this many items.
    Array(u64),
    /// The start of an array that ends at the matching `Break`.
    UnknownLengthArray,
    /// The start of a map with this many key/value pairs.
    SizedMap(u64),
    /// The start of a map that ends at the matching `Break`.
    UnknownLengthMap,
    /// A tag without extension semantics; it applies to the next item.
    UnrecognizedTag(u64),
    /// A simple value.
    Simple(u8),
    /// A floating-point number.
    Float(FloatBits),
    /// The end of an item of unknown length.
    Break,
    /// A date/time (tags 0 and 1).
    ChronoDateTime(DateTime),
    /// A bignum (tags 2 and 3).
    NumBigInt(BigInt),
}

/// The mathematical content of an extended [`Event`]: a basic event (with `Tag` standing
/// for an unrecognized tag), a date/time as seconds, nanoseconds and offset, or a bignum as
/// its sign and magnitude.
pub enum ExtEventModel {
    Basic(EventModel),
    DateTime(i64, u32, i32),
    BigInt(bool, Seq<u8>),
}

impl View for Event {
    type V = ExtEventModel;

    open spec fn view(&self) -> ExtEventModel {
        match self {
            Event::Unsigned(n) => ExtEventModel::Basic(EventModel::Unsigned(*n)),
            Event::Signed(n) => ExtEventModel::Basic(EventModel::Signed(*n)),
            Event::ByteString(b) => ExtEventModel::Basic(EventModel::ByteString(b@)),
            Event::UnknownLengthByteString => ExtEventModel::Basic(
                EventModel::UnknownLengthByteString,
            ),
            Event::TextString(t) => ExtEventModel::Basic(EventModel::TextString(t@)),
            Event::UnknownLengthTextString => ExtEventModel::Basic(
                EventModel::UnknownLengthTextString,
            ),
            Event::Array(n) => ExtEventModel::Basic(EventModel::Array(*n)),
            Event::UnknownLengthArray => ExtEventModel::Basic(EventModel::UnknownLengthArray),
            Event::SizedMap(n) => ExtEventModel::Basic(EventModel::SizedMap(*n)),
            Event::UnknownLengthMap => ExtEventModel::Basic(EventModel::UnknownLengthMap),
            Event::UnrecognizedTag(t) => ExtEventModel::Basic(EventModel::Tag(*t)),
            Event::Simple(s) => ExtEventModel::Basic(EventModel::Simple(*s)),
            Event::Float(f) => ExtEventModel::Basic(EventModel::Float(*f)),
            Event::Break => ExtEventModel::Basic(EventModel::Break),
            Event::ChronoDateTime(d) => ExtEventModel::DateTime(
                d.spec_timestamp(),
                d.spec_nanos(),
                d.spec_offset(),
            ),
            Event::NumBigInt(b) => ExtEventModel::BigInt(b.spec_negative(), b.spec_magnitude()),
        }
    }
}

/// The extended event that carries a basic event unchanged.
fn lift(e: BasicEvent) -> (r: Event)
    ensures
        r@ == ExtEventModel::Basic(e@),
{
    match e {
        BasicEvent::Unsigned(n) => Event::Unsigned(n),
        BasicEvent::Signed(n) => Event::Signed(n),
        BasicEvent::ByteString(b) => Event::ByteString(b),
        BasicEvent::UnknownLengthByteString => Event::UnknownLengthByteString,
        BasicEvent::TextString(t) => Event::TextString(t),
        BasicEvent::UnknownLengthTextString => Event::UnknownLengthTextString,
        BasicEvent::Array(n) => Event::Array(n),
        BasicEvent::UnknownLengthArray => Event::UnknownLengthArray,
        BasicEvent::SizedMap(n) => Event::SizedMap(n),
        BasicEvent::UnknownLengthMap => Event::UnknownLengthMap,
        BasicEvent::Tag(t) => Event::UnrecognizedTag(t),
        BasicEvent::Simple(s) => Event::Simple(s),
        BasicEvent::Float(f) => Event::Float(f),
        BasicEvent::Break => Event::Break,
    }
}

impl Event {
    /// Returns the event itself: its payloads are always owned.
    pub fn into_owned(self) -> (r: Event)
        ensures
            r@ == self@,
    {
        self
    }

    /// See [`BasicEvent::interpret_signed`].
    pub fn interpret_signed(val: u64) -> (r: i64)
        ensures
            r as int == crate::basic::streaming::negative_wrapped(val),
    {
        BasicEvent::interpret_signed(val)
    }

    /// See [`BasicEvent::interpret_signed_checked`].
    pub fn interpret_signed_checked(val: u64) -> (r: Option<i64>)
        ensures
            val < 0x8000_0000_0000_0000 ==> r == Some((-1 - val) as i64),
            val >= 0x8000_0000_0000_0000 ==> r is None,
    {
        BasicEvent::interpret_signed_checked(val)
    }

    /// See [`BasicEvent::interpret_signed_wide`].
    pub fn interpret_signed_wide(val: u64) -> (r: i128)
        ensures
            r == -1 - val,
    {
        BasicEvent::interpret_signed_wide(val)
    }

    /// The `Unsigned` or `Signed` event for `val`.
    pub fn create_signed(val: i64) -> (r: Event)
        ensures
            r@ == ExtEventModel::Basic(signed_event(val)),
    {
        lift(create_basic_signed(val))
    }

    /// The `Unsigned` or `Signed` event for `val`, or `None` where `val` is outside the
    /// range of CBOR's basic integers, `-2^64 ..= 2^64 - 1`.
    pub fn create_signed_wide(val: i128) -> (r: Option<Event>)
        ensures
            -0x1_0000_0000_0000_0000 <= val < 0x1_0000_0000_0000_0000 ==> (r matches Some(e)
                && e@ matches ExtEventModel::Basic(b) && crate::basic::streaming::event_int(b)
                == Some(val as int)),
            !(-0x1_0000_0000_0000_0000 <= val < 0x1_0000_0000_0000_0000) ==> r is None,
    {
        match BasicEvent::create_signed_wide(val) {
            Some(e) => Some(lift(e)),
            None => None,
        }
    }
}

/// The basic integer event for `v`.
pub open spec fn signed_event(v: i64) -> EventModel {
    if v < 0 {
        EventModel::Signed((-1 - v) as u64)
    } else {
        EventModel::Unsigned(v as u64)
    }
}

fn create_basic_signed(v: i64) -> (r: BasicEvent)
    ensures
        r@ == signed_event(v),
{
    if v < 0 {
        BasicEvent::Signed((-1 - v) as u64)
    } else {
        BasicEvent::Unsigned(v as u64)
    }
}

/// Why decoding an extended event failed.
pub enum ExtFailure {
    Malformed,
    Insufficient,
    BadText(Seq<u8>),
    TagInvalid(u64),
    InvalidDateTime,
    OversizedBignum,
}

/// What decoding one extended event gives.
pub enum ExtParsed {
    /// This event, the basic event queued to follow it (for a tag passed through), the
    /// bytes left and the pending stack of the basic decoder.
    Event(ExtEventModel, Option<EventModel>, Seq<u8>, Seq<Pending>),
    Failed(ExtFailure),
}

pub open spec fn tree_failure(f: TreeFailure) -> ExtFailure {
    match f {
        TreeFailure::Malformed => ExtFailure::Malformed,
        TreeFailure::Insufficient => ExtFailure::Insufficient,
        TreeFailure::BadText(b) => ExtFailure::BadText(b),
    }
}

pub open spec fn parsed_failure(p: Parsed) -> ExtFailure {
    match p {
        Parsed::BadText(b) => ExtFailure::BadText(b),
        Parsed::Short => ExtFailure::Insufficient,
        _ => ExtFailure::Malformed,
    }
}

/// Reading a byte string of known or unknown length.
pub open spec fn read_bytes(stack: Seq<Pending>, input: Seq<u8>) -> TreeParsed {
    match parse_event(stack, input) {
        Parsed::Event(EventModel::ByteString(b), k) => TreeParsed::Item(
            ItemModel::ByteString(b),
            input.skip(k as int),
            stack_after(stack, EventModel::ByteString(b)),
        ),
        Parsed::Event(EventModel::UnknownLengthByteString, k) => parse_byte_chunks(
            stack_after(stack, EventModel::UnknownLengthByteString),
            input.skip(k as int),
            Seq::empty(),
        ),
        Parsed::Event(_, _) => TreeParsed::Failed(TreeFailure::Malformed),
        p => TreeParsed::Failed(crate::basic::tree::event_failure(p)),
    }
}

/// Reading a text string of known or unknown length.
pub open spec fn read_text(stack: Seq<Pending>, input: Seq<u8>) -> TreeParsed {
    match parse_event(stack, input) {
        Parsed::Event(EventModel::TextString(t), k) => TreeParsed::Item(
            ItemModel::TextString(t),
            input.skip(k as int),
            stack_after(stack, EventModel::TextString(t)),
        ),
        Parsed::Event(EventModel::UnknownLengthTextString, k) => parse_text_chunks(
            stack_after(stack, EventModel::UnknownLengthTextString),
            input.skip(k as int),
            Seq::empty(),
        ),
        Parsed::Event(_, _) => TreeParsed::Failed(TreeFailure::Malformed),
        p => TreeParsed::Failed(crate::basic::tree::event_failure(p)),
    }
}

/// What `chrono::DateTime::parse_from_rfc3339` gives for `text`: seconds and nanoseconds
/// since the epoch and the offset in seconds east of UTC, or `None` where the text is not
/// RFC 3339.
pub uninterp spec fn rfc3339_parse(text: Seq<char>) -> Option<(i64, u32, i32)>;

/// Relies on `chrono::DateTime::parse_from_rfc3339`, whose result depends on the text
/// alone; the parsed value is handed back as its timestamp, nanoseconds and offset.
#[verifier::external_body]
fn parse_rfc3339(text: &str) -> (r: Option<(i64, u32, i32)>)
    ensures
        r == rfc3339_parse(text@),
{
    match chrono::DateTime::parse_from_rfc3339(text) {
        Ok(dt) => Some((dt.timestamp(), dt.timestamp_subsec_nanos(), dt.offset().local_minus_utc())),
        Err(_) => None,
    }
}

/// The date-time for a tag-0 text.
pub open spec fn text_date_time(text: Seq<char>, rest: Seq<u8>, stack: Seq<Pending>) -> ExtParsed {
    match rfc3339_parse(text) {
        Some((secs, nanos, offset)) => if instant_exists(secs, nanos) && offset_valid(offset) {
            ExtParsed::Event(ExtEventModel::DateTime(secs, nanos, offset), None, rest, stack)
        } else {
            ExtParsed::Failed(ExtFailure::InvalidDateTime)
        },
        None => ExtParsed::Failed(ExtFailure::InvalidDateTime),
    }
}

/// The item after tag 0, read as a date-time.
pub open spec fn parse_text_date_time(stack: Seq<Pending>, input: Seq<u8>) -> ExtParsed {
    match read_text(stack, input) {
        TreeParsed::Item(ItemModel::TextString(t), rest, s) => text_date_time(t, rest, s),
        TreeParsed::Failed(TreeFailure::Malformed) => ExtParsed::Failed(ExtFailure::TagInvalid(0)),
        TreeParsed::Failed(f) => ExtParsed::Failed(tree_failure(f)),
        _ => ExtParsed::Failed(ExtFailure::TagInvalid(0)),
    }
}

/// The date-time `secs` seconds after the epoch, in UTC, for tag 1.
pub open spec fn epoch_date_time(secs: int, rest: Seq<u8>, stack: Seq<Pending>) -> ExtParsed {
    if i64::MIN <= secs <= i64::MAX && instant_exists(secs as i64, 0) {
        ExtParsed::Event(ExtEventModel::DateTime(secs as i64, 0, 0), None, rest, stack)
    } else {
        ExtParsed::Failed(ExtFailure::TagInvalid(1))
    }
}

/// The item after tag 1, read as a date-time. A floating-point number of seconds passes
/// through as the tag followed by the number.
pub open spec fn parse_numeric_date_time(stack: Seq<Pending>, input: Seq<u8>) -> ExtParsed {
    match parse_event(stack, input) {
        Parsed::Event(e, k) => {
            let rest = input.skip(k as int);
            let s = stack_after(stack, e);
            match e {
                EventModel::Unsigned(n) => epoch_date_time(n as int, rest, s),
                EventModel::Signed(n) => epoch_date_time(-1 - n, rest, s),
                EventModel::Float(f) => ExtParsed::Event(
                    ExtEventModel::Basic(EventModel::Tag(1)),
                    Some(EventModel::Float(f)),
                    rest,
                    s,
                ),
                _ => ExtParsed::Failed(ExtFailure::TagInvalid(1)),
            }
        },
        p => ExtParsed::Failed(parsed_failure(p)),
    }
}

/// The item after tag 2 (or tag 3 when `negative`), read as a bignum.
pub open spec fn parse_bignum(
    style: BignumDecodeStyle,
    negative: bool,
    stack: Seq<Pending>,
    input: Seq<u8>,
) -> ExtParsed {
    match read_bytes(stack, input) {
        TreeParsed::Item(ItemModel::ByteString(b), rest, s) => {
            let m = strip_zeros(b);
            if style == BignumDecodeStyle::Num {
                ExtParsed::Event(ExtEventModel::BigInt(negative, m), None, rest, s)
            } else if m.len() <= 7 {
                let v = be_value(m) as u64;
                ExtParsed::Event(
                    ExtEventModel::Basic(
                        if negative {
                            EventModel::Signed(v)
                        } else {
                            EventModel::Unsigned(v)
                        },
                    ),
                    None,
                    rest,
                    s,
                )
            } else if style == BignumDecodeStyle::Convert {
                ExtParsed::Event(
                    ExtEventModel::Basic(EventModel::Tag(if negative { 3u64 } else { 2u64 })),
                    Some(EventModel::ByteString(b)),
                    rest,
                    s,
                )
            } else {
                ExtParsed::Failed(ExtFailure::OversizedBignum)
            }
        },
        TreeParsed::Failed(f) => ExtParsed::Failed(tree_failure(f)),
        _ => ExtParsed::Failed(ExtFailure::Malformed),
    }
}

/// Decoding one extended event from the start of `input` with `stack` pending.
#[verifier::opaque]
pub open spec fn parse_ext_event(
    config: DecodeExtensionConfig,
    stack: Seq<Pending>,
    input: Seq<u8>,
) -> ExtParsed {
    match parse_event(stack, input) {
        Parsed::Event(e, k) => {
            let rest = input.skip(k as int);
            let s = stack_after(stack, e);
            let chrono = config.date_time_style == DateTimeDecodeStyle::Chrono;
            match e {
                EventModel::Tag(t) => if t == 0 && chrono {
                    parse_text_date_time(s, rest)
                } else if t == 1 && chrono {
                    parse_numeric_date_time(s, rest)
                } else if t == 2 || t == 3 {
                    parse_bignum(config.bignum_style, t == 3, s, rest)
                } else {
                    ExtParsed::Event(ExtEventModel::Basic(e), None, rest, s)
                },
                _ => ExtParsed::Event(ExtEventModel::Basic(e), None, rest, s),
            }
        },
        p => ExtParsed::Failed(parsed_failure(p)),
    }
}

/// The decoding error that stands for a failure.
pub open spec fn ext_failure_matches(e: DecodeError, f: ExtFailure) -> bool {
    match f {
        ExtFailure::Malformed => e == DecodeError::Malformed,
        ExtFailure::Insufficient => e == DecodeError::Insufficient,
        ExtFailure::BadText(b) => e matches DecodeError::InvalidUtf8(v) && v@ == b,
        ExtFailure::TagInvalid(t) => e == DecodeError::TagInvalid(t),
        ExtFailure::InvalidDateTime => e == DecodeError::InvalidDateTime,
        ExtFailure::OversizedBignum => e == DecodeError::OversizedBignum,
    }
}

/// A streaming decoder for CBOR with extensions.
#[derive(Debug)]
pub struct Decoder {
    basic: BasicDecoder,
    config: DecodeExtensionConfig,
    /// An event to hand out before reading further.
    queue: Option<Event>,
}

impl Decoder {
    /// The options in force.
    pub closed spec fn config(&self) -> DecodeExtensionConfig {
        self.config
    }

    /// The event waiting to be handed out before any further reading.
    pub closed spec fn queued(&self) -> Option<ExtEventModel> {
        match self.queue {
            Some(e) => Some(e@),
            None => None,
        }
    }

    /// The basic decoder underneath.
    pub closed spec fn basic(&self) -> BasicDecoder {
        self.basic
    }

    /// `r` and the state `d` are what decoding one event gave: `p`.
    pub open spec fn outcome(r: Result<Event, DecodeError>, p: ExtParsed, d: Decoder) -> bool {
        match p {
            ExtParsed::Event(m, q, rest, s) => {
                &&& r matches Ok(e) && e@ == m
                &&& d.queued() == match q {
                    Some(b) => Some(ExtEventModel::Basic(b)),
                    None => None::<ExtEventModel>,
                }
                &&& d.basic().remaining() == rest
                &&& d.basic().pending() == s
            },
            ExtParsed::Failed(f) => r matches Err(e) && ext_failure_matches(e, f),
        }
    }

    /// A decoder with the default options over a basic decoder.
    pub fn new_from_basic_decoder(basic: BasicDecoder) -> (r: Self)
        ensures
            r.basic() == basic,
            r.config().date_time_style == DateTimeDecodeStyle::Ignore,
            r.config().bignum_style == BignumDecodeStyle::Convert,
            r.queued() is None,
    {
        Decoder { basic, config: DecodeExtensionConfig::new(), queue: None }
    }

    /// A decoder with the default options that reads `source`.
    pub fn new(source: Vec<u8>) -> (r: Self)
        ensures
            r.basic().remaining() == source@,
            r.basic().pending() == Seq::<Pending>::empty(),
            r.basic().buffered() == 0,
            r.config().date_time_style == DateTimeDecodeStyle::Ignore,
            r.config().bignum_style == BignumDecodeStyle::Convert,
            r.queued() is None,
    {
        Decoder::new_from_basic_decoder(BasicDecoder::new(source))
    }

    /// How date-times are decoded.
    pub fn date_time_style(&self) -> (r: &DateTimeDecodeStyle)
        ensures
            *r == self.config().date_time_style,
    {
        &self.config.date_time_style
    }

    /// Sets how date-times are decoded.
    pub fn set_date_time_style(&mut self, value: DateTimeDecodeStyle)
        ensures
            final(self).config() == (DecodeExtensionConfig {
                date_time_style: value,
                ..old(self).config()
            }),
            final(self).basic() == old(self).basic(),
            final(self).queued() == old(self).queued(),
    {
        self.config.date_time_style = value;
    }

    /// How bignums are decoded.
    pub fn bignum_style(&self) -> (r: &BignumDecodeStyle)
        ensures
            *r == self.config().bignum_style,
    {
        &self.config.bignum_style
    }

    /// Sets how bignums are decoded.
    pub fn set_bignum_style(&mut self, value: BignumDecodeStyle)
        ensures
            final(self).config() == (DecodeExtensionConfig {
                bignum_style: value,
                ..old(self).config()
            }),
            final(self).basic() == old(self).basic(),
            final(self).queued() == old(self).queued(),
    {
        self.config.bignum_style = value;
    }

    /// Decodes the next event: the queued one if there is one, else the next basic event,
    /// with a tag that the options recognize folded together with the item it applies to.
    pub fn next_event(&mut self) -> (r: Result<Event, DecodeError>)
        ensures
            final(self).config() == old(self).config(),
            old(self).queued() matches Some(q) ==> {
                &&& r matches Ok(e) && e@ == q
                &&& final(self).queued() is None
                &&& final(self).basic() == old(self).basic()
            },
            old(self).queued() is None ==> Decoder::outcome(
                r,
                parse_ext_event(
                    old(self).config(),
                    old(self).basic().pending(),
                    old(self).basic().remaining(),
                ),
                *final(self),
            ),
    {
        proof {
            reveal(parse_ext_event);
        }
        match self.queue.take() {
            Some(e) => {
                return Ok(e);
            },
            None => {},
        }
        let event = match self.basic.next_event() {
            Ok(e) => e,
            Err(e) => {
                return Err(e);
            },
        };
        match event {
            BasicEvent::Tag(t) => {
                let chrono = self.config.date_time_style == DateTimeDecodeStyle::Chrono;
                if t == 0 && chrono {
                    self.read_text_date_time()
                } else if t == 1 && chrono {
                    self.read_numeric_date_time()
                } else if t == 2 || t == 3 {
                    self.read_bignum(t == 3)
                } else {
                    Ok(Event::UnrecognizedTag(t))
                }
            },
            other => Ok(lift(other)),
        }
    }

    fn read_text_date_time(&mut self) -> (r: Result<Event, DecodeError>)
        requires
            old(self).queued() is None,
        ensures
            final(self).config() == old(self).config(),
            Decoder::outcome(
                r,
                parse_text_date_time(old(self).basic().pending(), old(self).basic().remaining()),
                *final(self),
            ),
    {
        let text = match self.basic.next_event() {
            Ok(BasicEvent::TextString(t)) => t,
            Ok(BasicEvent::UnknownLengthTextString) => match read_text_chunks(&mut self.basic) {
                Ok(t) => t,
                Err(DecodeError::Malformed) => {
                    return Err(DecodeError::TagInvalid(0));
                },
                Err(e) => {
                    return Err(e);
                },
            },
            Ok(_) => {
                return Err(DecodeError::TagInvalid(0));
            },
            Err(DecodeError::Malformed) => {
                return Err(DecodeError::TagInvalid(0));
            },
            Err(e) => {
                return Err(e);
            },
        };
        match parse_rfc3339(text.as_str()) {
            Some((secs, nanos, offset)) => match DateTime::new(secs, nanos, offset) {
                Some(d) => Ok(Event::ChronoDateTime(d)),
                None => Err(DecodeError::InvalidDateTime),
            },
            None => Err(DecodeError::InvalidDateTime),
        }
    }

    fn read_numeric_date_time(&mut self) -> (r: Result<Event, DecodeError>)
        requires
            old(self).queued() is None,
        ensures
            final(self).config() == old(self).config(),
            Decoder::outcome(
                r,
                parse_numeric_date_time(old(self).basic().pending(), old(self).basic().remaining()),
                *final(self),
            ),
    {
        match self.basic.next_event() {
            Ok(BasicEvent::Unsigned(n)) => {
                if n <= i64::MAX as u64 {
                    match DateTime::from_timestamp(n as i64, 0) {
                        Some(d) => Ok(Event::ChronoDateTime(d)),
                        None => Err(DecodeError::TagInvalid(1)),
                    }
                } else {
                    Err(DecodeError::TagInvalid(1))
                }
            },
            Ok(BasicEvent::Signed(n)) => match BasicEvent::interpret_signed_checked(n) {
                Some(secs) => match DateTime::from_timestamp(secs, 0) {
                    Some(d) => Ok(Event::ChronoDateTime(d)),
                    None => Err(DecodeError::TagInvalid(1)),
                },
                None => Err(DecodeError::TagInvalid(1)),
            },
            Ok(BasicEvent::Float(f)) => {
                self.queue = Some(Event::Float(f));
                Ok(Event::UnrecognizedTag(1))
            },
            Ok(_) => Err(DecodeError::TagInvalid(1)),
            Err(e) => Err(e),
        }
    }

    fn read_bignum(&mut self, negative: bool) -> (r: Result<Event, DecodeError>)
        requires
            old(self).queued() is None,
        ensures
            final(self).config() == old(self).config(),
            Decoder::outcome(
                r,
                parse_bignum(
                    old(self).config().bignum_style,
                    negative,
                    old(self).basic().pending(),
                    old(self).basic().remaining(),
                ),
                *final(self),
            ),
    {
        let bytes = match self.basic.next_event() {
            Ok(BasicEvent::ByteString(b)) => b,
            Ok(BasicEvent::UnknownLengthByteString) => match read_byte_chunks(&mut self.basic) {
                Ok(b) => b,
                Err(e) => {
                    return Err(e);
                },
            },
            Ok(_) => {
                return Err(DecodeError::Malformed);
            },
            Err(e) => {
                return Err(e);
            },
        };
        let start = leading_zeros(&bytes);
        let len = bytes.len();
        if self.config.bignum_style == BignumDecodeStyle::Num {
            Ok(Event::NumBigInt(BigInt::from_cbor_bytes(negative, &bytes)))
        } else if len - start <= 7 {
            let v = read_be(bytes.as_slice(), start, len - start);
            if negative {
                Ok(Event::Signed(v))
            } else {
                Ok(Event::Unsigned(v))
            }
        } else if self.config.bignum_style == BignumDecodeStyle::Convert {
            self.queue = Some(Event::ByteString(bytes));
            Ok(Event::UnrecognizedTag(if negative { 3 } else { 2 }))
        } else {
            Err(DecodeError::OversizedBignum)
        }
    }

    /// How many bytes are missing before the basic decoder underneath has its next event;
    /// see the basic decoder.
    pub fn shortfall(&self) -> (r: u64)
        ensures
            r == crate::basic::streaming::shortfall(self.basic().remaining()),
            (r > 0) == (parse_event(self.basic().pending(), self.basic().remaining()) is Short),
    {
        self.basic.shortfall()
    }

    /// Appends bytes that the source has produced since; see the basic decoder.
    pub fn feed(&mut self, bytes: &[u8])
        ensures
            final(self).basic().remaining() == old(self).basic().remaining() + bytes@,
            final(self).basic().pending() == old(self).basic().pending(),
            final(self).basic().buffered() == old(self).basic().buffered(),
            final(self).config() == old(self).config(),
            final(self).queued() == old(self).queued(),
    {
        self.basic.feed(bytes);
    }

    /// How many bytes no decoded event has taken yet.
    pub(crate) fn remaining_len(&self) -> (r: usize)
        ensures
            r == self.basic().remaining().len(),
    {
        self.basic.remaining_len()
    }

    /// Whether an event waits to be handed out before any further reading.
    pub(crate) fn has_queued(&self) -> (r: bool)
        ensures
            r == self.queued() is Some,
    {
        self.queue.is_some()
    }

    /// Reads the fragments of a byte string of unknown length, whose start has been read,
    /// up to its break.
    pub fn read_unknown_length_byte_string_body(&mut self) -> (r: Result<Vec<u8>, DecodeError>)
        ensures
            final(self).config() == old(self).config(),
            final(self).queued() == old(self).queued(),
            match parse_byte_chunks(old(self).basic().pending(), old(self).basic().remaining(), Seq::empty()) {
                TreeParsed::Item(ItemModel::ByteString(b), rest, s) => {
                    &&& r matches Ok(v) && v@ == b
                    &&& final(self).basic().remaining() == rest
                    &&& final(self).basic().pending() == s
                },
                TreeParsed::Failed(f) => r matches Err(e) && crate::basic::tree::failure_matches(e, f),
                _ => false,
            },
    {
        read_byte_chunks(&mut self.basic)
    }

    /// Reads the fragments of a text string of unknown length, whose start has been read,
    /// up to its break.
    pub fn read_unknown_length_text_string_body(&mut self) -> (r: Result<String, DecodeError>)
        ensures
            final(self).config() == old(self).config(),
            final(self).queued() == old(self).queued(),
            match parse_text_chunks(old(self).basic().pending(), old(self).basic().remaining(), Seq::empty()) {
                TreeParsed::Item(ItemModel::TextString(t), rest, s) => {
                    &&& r matches Ok(v) && v@ == t
                    &&& final(self).basic().remaining() == rest
                    &&& final(self).basic().pending() == s
                },
                TreeParsed::Failed(f) => r matches Err(e) && crate::basic::tree::failure_matches(e, f),
                _ => false,
            },
    {
        read_text_chunks(&mut self.basic)
    }

    /// Whether the decoding can end here; see the basic decoder.
    pub fn ready_to_finish(&self) -> (r: bool)
        ensures
            r == (self.basic().pending().len() == 0 && self.basic().buffered() == 0),
    {
        self.basic.ready_to_finish()
    }

    /// Ends the decoding; see the basic decoder.
    pub fn finish(self) -> (r: Result<Vec<u8>, DecodeError>)
        ensures
            self.basic().pending().len() == 0 && self.basic().buffered() == 0 ==> (r matches Ok(
                rest,
            ) && rest@ == self.basic().remaining()),
            !(self.basic().pending().len() == 0 && self.basic().buffered() == 0) ==> r == Err::<
                Vec<u8>,
                DecodeError,
            >(DecodeError::Insufficient),
    {
        self.basic.finish()
    }

    /// Ends the decoding whatever its state; see the basic decoder.
    pub fn force_finish(self) -> (r: Vec<u8>)
        ensures
            r@ == self.basic().remaining(),
    {
        self.basic.force_finish()
    }
}

/// What `chrono`'s `to_rfc3339_opts(SecondsFormat::AutoSi, true)` writes for the UTC
/// instant `secs` seconds and `nanos` nanoseconds after the epoch.
pub uninterp spec fn rfc3339_text(secs: i64, nanos: u32) -> Seq<char>;

/// Relies on `chrono::DateTime::to_rfc3339_opts` with `SecondsFormat::AutoSi` and a `Z`
/// suffix, applied to the UTC instant; its result depends on the instant alone.
#[verifier::external_body]
fn format_rfc3339(secs: i64, nanos: u32) -> (r: String)
    requires
        instant_exists(secs, nanos),
    ensures
        r@ == rfc3339_text(secs, nanos),
{
    match chrono::DateTime::from_timestamp(secs, nanos) {
        Some(dt) => dt.to_rfc3339_opts(chrono::SecondsFormat::AutoSi, true),
        None => String::new(),
    }
}

/// The basic events that the extended encoder writes for `m`. A date-time is written as
/// tag 0 and its RFC 3339 text, or as tag 1 and its whole seconds where numeric date-times
/// are preferred and it has no fraction of a second. A bignum that fits a basic integer is
/// written as one; else as tag 2 (tag 3 when negative) and its magnitude.
pub open spec fn ext_events(style: DateTimeEncodeStyle, m: ExtEventModel) -> Seq<EventModel> {
    match m {
        ExtEventModel::Basic(e) => seq![e],
        ExtEventModel::DateTime(secs, nanos, _) => if style == DateTimeEncodeStyle::PreferNumeric
            && nanos == 0 {
            seq![EventModel::Tag(1), signed_event(secs)]
        } else {
            seq![EventModel::Tag(0), EventModel::TextString(rfc3339_text(secs, nanos))]
        },
        ExtEventModel::BigInt(negative, magnitude) => if magnitude.len() <= 8 {
            let v = be_value(magnitude) as u64;
            seq![
                if negative {
                    EventModel::Signed(v)
                } else {
                    EventModel::Unsigned(v)
                },
            ]
        } else {
            seq![
                EventModel::Tag(if negative { 3u64 } else { 2u64 }),
                EventModel::ByteString(magnitude),
            ]
        },
    }
}

/// The basic event that an extended event other than a date-time or bignum carries.
fn unlift(e: Event) -> (r: BasicEvent)
    requires
        e@ is Basic,
    ensures
        e@ == ExtEventModel::Basic(r@),
{
    match e {
        Event::Unsigned(n) => BasicEvent::Unsigned(n),
        Event::Signed(n) => BasicEvent::Signed(n),
        Event::ByteString(b) => BasicEvent::ByteString(b),
        Event::UnknownLengthByteString => BasicEvent::UnknownLengthByteString,
        Event::TextString(t) => BasicEvent::TextString(t),
        Event::UnknownLengthTextString => BasicEvent::UnknownLengthTextString,
        Event::Array(n) => BasicEvent::Array(n),
        Event::UnknownLengthArray => BasicEvent::UnknownLengthArray,
        Event::SizedMap(n) => BasicEvent::SizedMap(n),
        Event::UnknownLengthMap => BasicEvent::UnknownLengthMap,
        Event::UnrecognizedTag(t) => BasicEvent::Tag(t),
        Event::Simple(s) => BasicEvent::Simple(s),
        Event::Float(f) => BasicEvent::Float(f),
        _ => BasicEvent::Break,
    }
}

/// A streaming encoder for CBOR with extensions, writing to a byte vector.
#[derive(Debug, Clone)]
pub struct Encoder {
    dest: BasicEncoder,
    config: EncodeExtensionConfig,
}

impl Encoder {
    /// The options in force.
    pub closed spec fn config(&self) -> EncodeExtensionConfig {
        self.config
    }

    /// The basic encoder underneath.
    pub closed spec fn basic(&self) -> BasicEncoder {
        self.dest
    }

    /// An encoder with the default options over a basic encoder.
    pub fn new_from_basic_encoder(dest: BasicEncoder) -> (r: Self)
        ensures
            r.basic() == dest,
            r.config().date_time_style == DateTimeEncodeStyle::PreferText,
    {
        Encoder { dest, config: EncodeExtensionConfig::new() }
    }

    /// An encoder with the default options that appends to `dest`.
    pub fn new(dest: Vec<u8>) -> (r: Self)
        ensures
            r.basic().written() == dest@,
            r.basic().pending() == Seq::<Pending>::empty(),
            r.config().date_time_style == DateTimeEncodeStyle::PreferText,
    {
        Encoder::new_from_basic_encoder(BasicEncoder::new(dest))
    }

    /// How date-times are encoded.
    pub fn date_time_style(&self) -> (r: &DateTimeEncodeStyle)
        ensures
            *r == self.config().date_time_style,
    {
        &self.config.date_time_style
    }

    /// Sets how date-times are encoded.
    pub fn set_date_time_style(&mut self, value: DateTimeEncodeStyle)
        ensures
            final(self).config().date_time_style == value,
            final(self).basic() == old(self).basic(),
    {
        self.config.date_time_style = value;
    }

    /// Writes one event: a date-time or bignum as the basic events of [`ext_events`],
    /// anything else as the basic event it carries.
    pub fn feed_event(&mut self, event: Event) -> (r: Result<(), EncodeError>)
        ensures
            final(self).config() == old(self).config(),
            match encode_events(
                old(self).basic().pending(),
                ext_events(old(self).config().date_time_style, event@),
            ) {
                Some((bytes, s)) => {
                    &&& r is Ok
                    &&& final(self).basic().written() == old(self).basic().written() + bytes
                    &&& final(self).basic().pending() == s
                },
                None => {
                    &&& r == Err::<(), EncodeError>(EncodeError::InvalidBreak)
                    &&& final(self).basic().written() == old(self).basic().written()
                    &&& final(self).basic().pending() == old(self).basic().pending()
                },
            },
    {
        proof {
            reveal_with_fuel(encode_events, 3);
        }
        let ghost start = self.dest.written();
        match event {
            Event::ChronoDateTime(d) => {
                proof {
                    use_type_invariant(&d);
                }
                let secs = d.timestamp();
                let nanos = d.nanos();
                if self.config.date_time_style == DateTimeEncodeStyle::PreferNumeric && nanos == 0 {
                    let _ = self.dest.feed_event(BasicEvent::Tag(1));
                    let _ = self.dest.feed_event(create_basic_signed(secs));
                } else {
                    let _ = self.dest.feed_event(BasicEvent::Tag(0));
                    let text = format_rfc3339(secs, nanos);
                    let _ = self.dest.feed_event(BasicEvent::TextString(text));
                }
                assert(self.dest.written() =~= start + (
                    encode_events(old(self).basic().pending(), ext_events(self.config.date_time_style, event@))->Some_0.0));
                Ok(())
            },
            Event::NumBigInt(b) => {
                let negative = b.is_negative();
                let magnitude = b.magnitude();
                let len = magnitude.len();
                if len <= 8 {
                    let v = read_be(magnitude.as_slice(), 0, len);
                    proof {
                        assert(magnitude@.subrange(0, len as int) =~= magnitude@);
                    }
                    if negative {
                        let _ = self.dest.feed_event(BasicEvent::Signed(v));
                    } else {
                        let _ = self.dest.feed_event(BasicEvent::Unsigned(v));
                    }
                } else {
                    let _ = self.dest.feed_event(BasicEvent::Tag(if negative { 3 } else { 2 }));
                    let bytes = crate::basic::streaming::copy_range(magnitude, 0, len);
                    let _ = self.dest.feed_event(BasicEvent::ByteString(bytes));
                }
                assert(self.dest.written() =~= start + (
                    encode_events(old(self).basic().pending(), ext_events(self.config.date_time_style, event@))->Some_0.0));
                Ok(())
            },
            other => {
                let basic = unlift(other);
                let r = self.dest.feed_event(basic);
                assert(encode_events(old(self).basic().pending(), seq![basic@]) == if crate::basic::streaming::accepts(old(self).basic().pending(), basic@) {
                    Some((crate::basic::streaming::encode_event(basic@) + Seq::<u8>::empty(), crate::basic::streaming::stack_after(old(self).basic().pending(), basic@)))
                } else {
                    None
                });
                assert(crate::basic::streaming::encode_event(basic@) + Seq::<u8>::empty() =~= crate::basic::streaming::encode_event(basic@));
                r
            },
        }
    }

    /// Whether every container and tag opened so far is complete.
    pub fn ready_to_finish(&self) -> (r: bool)
        ensures
            r == (self.basic().pending().len() == 0),
    {
        self.dest.ready_to_finish()
    }

    /// The destination, with everything written to it.
    pub fn into_inner(self) -> (r: Vec<u8>)
        ensures
            r@ == self.basic().written(),
    {
        self.dest.into_inner()
    }

    /// Hands out what has been written so far; see the basic encoder.
    pub fn take_output(&mut self) -> (r: Vec<u8>)
        ensures
            r@ == old(self).basic().written(),
            final(self).basic().written() == Seq::<u8>::empty(),
            final(self).basic().pending() == old(self).basic().pending(),
            final(self).config() == old(self).config(),
    {
        self.dest.take_output()
    }
}

} // verus!
