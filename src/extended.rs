//! CBOR with extensions: date-times (tags 0 and 1) and bignums (tags 2 and 3) folded into
//! events and items of their own.
use vstd::prelude::*;

pub mod streaming;
pub mod tree;

verus! {

/// How to decode date-times.
#[derive(Debug, Clone, Copy, PartialEq, Eq, Structural)]
#[non_exhaustive]
pub enum DateTimeDecodeStyle {
    /// Do not handle date-times: tags 0 and 1 pass through as unrecognized tags.
    Ignore,
    /// Fold tags 0 and 1 into [`DateTime`] events, with the `chrono` crate.
    Chrono,
}

impl Default for DateTimeDecodeStyle {
    /// [`DateTimeDecodeStyle::Ignore`].
    fn default() -> (r: Self)
        ensures
            r == DateTimeDecodeStyle::Ignore,
    {
        DateTimeDecodeStyle::Ignore
    }
}

/// How to encode date-times.
#[derive(Debug, Clone, Copy, PartialEq, Eq, Structural)]
#[non_exhaustive]
pub enum DateTimeEncodeStyle {
    /// Text date-times (tag 0).
    PreferText,
    /// Numeric date-times (tag 1).
    PreferNumeric,
}

impl Default for DateTimeEncodeStyle {
    /// [`DateTimeEncodeStyle::PreferText`], which handles instants before the epoch and
    /// fractions of a second without rounding.
    fn default() -> (r: Self)
        ensures
            r == DateTimeEncodeStyle::PreferText,
    {
        DateTimeEncodeStyle::PreferText
    }
}

/// How to decode bignums.
#[derive(Debug, Clone, Copy, PartialEq, Eq, Structural)]
#[non_exhaustive]
pub enum BignumDecodeStyle {
    /// Fold a bignum into a basic integer where it fits; else pass the tag and its byte
    /// string through unchanged.
    Convert,
    /// Fold a bignum into a basic integer, and fail where it does not fit.
    ForceConvert,
    /// Always produce a [`BigInt`].
    Num,
}

impl Default for BignumDecodeStyle {
    /// [`BignumDecodeStyle::Convert`].
    fn default() -> (r: Self)
        ensures
            r == BignumDecodeStyle::Convert,
    {
        BignumDecodeStyle::Convert
    }
}

/// The extension options of a decoder.
#[derive(Debug, Clone, Copy)]
pub struct DecodeExtensionConfig {
    pub date_time_style: DateTimeDecodeStyle,
    pub bignum_style: BignumDecodeStyle,
}

impl DecodeExtensionConfig {
    pub fn new() -> (r: Self)
        ensures
            r.date_time_style == DateTimeDecodeStyle::Ignore,
            r.bignum_style == BignumDecodeStyle::Convert,
    {
        DecodeExtensionConfig {
            date_time_style: DateTimeDecodeStyle::Ignore,
            bignum_style: BignumDecodeStyle::Convert,
        }
    }
}

/// The extension options of an encoder.
#[derive(Debug, Clone, Copy)]
pub struct EncodeExtensionConfig {
    pub date_time_style: DateTimeEncodeStyle,
}

impl EncodeExtensionConfig {
    pub fn new() -> (r: Self)
        ensures
            r.date_time_style == DateTimeEncodeStyle::PreferText,
    {
        EncodeExtensionConfig { date_time_style: DateTimeEncodeStyle::PreferText }
    }
}

/// Whether `chrono` can represent the instant `secs` seconds and `nanos` nanoseconds after
/// the Unix epoch.
pub uninterp spec fn instant_exists(secs: i64, nanos: u32) -> bool;

/// Relies on `chrono::DateTime::from_timestamp`, which returns `Some` exactly for the
/// instants that chrono can represent.
#[verifier::external_body]
fn chrono_instant_exists(secs: i64, nanos: u32) -> (r: bool)
    ensures
        r == instant_exists(secs, nanos),
{
    chrono::DateTime::from_timestamp(secs, nanos).is_some()
}

/// Whether `offset` seconds east of UTC is an offset that `chrono` accepts.
pub open spec fn offset_valid(offset: i32) -> bool {
    -86_400 < offset < 86_400
}

/// An instant with a fixed offset from UTC, as `chrono` can represent it.
#[derive(Debug, Clone, Copy, PartialEq, Eq)]
pub struct DateTime {
    timestamp: i64,
    nanos: u32,
    offset: i32,
}

impl DateTime {
    #[verifier::type_invariant]
    spec fn inv(self) -> bool {
        instant_exists(self.timestamp, self.nanos) && offset_valid(self.offset)
    }

    /// Seconds since the Unix epoch.
    pub closed spec fn spec_timestamp(self) -> i64 {
        self.timestamp
    }

    /// Nanoseconds after the second.
    pub closed spec fn spec_nanos(self) -> u32 {
        self.nanos
    }

    /// Seconds east of UTC.
    pub closed spec fn spec_offset(self) -> i32 {
        self.offset
    }

    /// The instant `timestamp` seconds and `nanos` nanoseconds after the Unix epoch, shown
    /// at `offset` seconds east of UTC; `None` where chrono cannot represent it.
    pub fn new(timestamp: i64, nanos: u32, offset: i32) -> (r: Option<DateTime>)
        ensures
            (instant_exists(timestamp, nanos) && offset_valid(offset)) == (r is Some),
            r matches Some(d) ==> d.spec_timestamp() == timestamp && d.spec_nanos() == nanos
                && d.spec_offset() == offset,
    {
        if -86_400 < offset && offset < 86_400 && chrono_instant_exists(timestamp, nanos) {
            Some(DateTime { timestamp, nanos, offset })
        } else {
            None
        }
    }

    /// The instant in UTC; `None` where chrono cannot represent it.
    pub fn from_timestamp(timestamp: i64, nanos: u32) -> (r: Option<DateTime>)
        ensures
            instant_exists(timestamp, nanos) == (r is Some),
            r matches Some(d) ==> d.spec_timestamp() == timestamp && d.spec_nanos() == nanos
                && d.spec_offset() == 0,
    {
        DateTime::new(timestamp, nanos, 0)
    }

    /// Seconds since the Unix epoch.
    pub fn timestamp(&self) -> (r: i64)
        ensures
            r == self.spec_timestamp(),
    {
        self.timestamp
    }

    /// Nanoseconds after the second (at or above 10^9 within a leap second).
    pub fn nanos(&self) -> (r: u32)
        ensures
            r == self.spec_nanos(),
    {
        self.nanos
    }

    /// Seconds east of UTC.
    pub fn offset(&self) -> (r: i32)
        ensures
            r == self.spec_offset(),
    {
        self.offset
    }
}

/// A bignum as CBOR writes it: its sign, and a big-endian magnitude `m` without leading
/// zero bytes. The value is `m` when not negative and `-1 - m` when negative.
#[derive(Debug, Clone, PartialEq, Eq)]
pub struct BigInt {
    negative: bool,
    magnitude: Vec<u8>,
}

/// `bytes` without its leading zero bytes.
pub open spec fn strip_zeros(bytes: Seq<u8>) -> Seq<u8>
    decreases bytes.len(),
{
    if bytes.len() > 0 && bytes[0] == 0 {
        strip_zeros(bytes.drop_first())
    } else {
        bytes
    }
}

/// The number of leading zero bytes in `bytes`.
pub(crate) fn leading_zeros(bytes: &Vec<u8>) -> (r: usize)
    ensures
        r <= bytes@.len(),
        strip_zeros(bytes@) == bytes@.subrange(r as int, bytes@.len() as int),
{
    let mut i: usize = 0;
    assert(bytes@.subrange(0, bytes@.len() as int) =~= bytes@);
    while i < bytes.len() && bytes[i] == 0
        invariant
            i <= bytes@.len(),
            strip_zeros(bytes@) == strip_zeros(bytes@.subrange(i as int, bytes@.len() as int)),
        decreases bytes@.len() - i,
    {
        proof {
            let s = bytes@.subrange(i as int, bytes@.len() as int);
            assert(s.drop_first() =~= bytes@.subrange(i + 1, bytes@.len() as int));
        }
        i = i + 1;
    }
    proof {
        let s = bytes@.subrange(i as int, bytes@.len() as int);
        if s.len() > 0 {
            assert(s[0] == bytes@[i as int]);
        }
    }
    i
}

impl BigInt {
    pub closed spec fn spec_negative(self) -> bool {
        self.negative
    }

    /// The big-endian magnitude, without leading zeros.
    pub closed spec fn spec_magnitude(self) -> Seq<u8> {
        self.magnitude@
    }

    /// The bignum whose value is `bytes` read big-endian, or `-1` minus that when
    /// `negative`.
    pub fn from_cbor_bytes(negative: bool, bytes: &Vec<u8>) -> (r: BigInt)
        ensures
            r.spec_negative() == negative,
            r.spec_magnitude() == strip_zeros(bytes@),
    {
        let start = leading_zeros(bytes);
        let magnitude = crate::basic::streaming::copy_range(bytes, start, bytes.len());
        BigInt { negative, magnitude }
    }

    /// A copy of this bignum.
    pub(crate) fn duplicate(&self) -> (r: BigInt)
        ensures
            r.spec_negative() == self.spec_negative(),
            r.spec_magnitude() == self.spec_magnitude(),
    {
        let magnitude = crate::basic::streaming::copy_range(&self.magnitude, 0, self.magnitude.len());
        BigInt { negative: self.negative, magnitude }
    }

    pub fn is_negative(&self) -> (r: bool)
        ensures
            r == self.spec_negative(),
    {
        self.negative
    }

    /// The big-endian magnitude `m`, without leading zeros: the value is `m`, or `-1 - m`
    /// when negative.
    pub fn magnitude(&self) -> (r: &Vec<u8>)
        ensures
            r@ == self.spec_magnitude(),
    {
        &self.magnitude
    }
}

} // verus!
