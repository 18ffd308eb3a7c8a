//! Whole items of CBOR with extensions, built from and walked into the extended streaming
//! decoder and encoder.
use crate::basic::laws::encode_events;
use crate::basic::streaming::{advance, copy_range, encode_event, stack_after, EventModel, FloatBits, Pending};
use crate::basic::tree::{parse_byte_chunks, parse_text_chunks, ItemModel, TreeParsed};
use crate::errors::{DecodeError, EncodeError};
use crate::extended::streaming::{
    ext_events, ext_failure_matches, parse_ext_event, tree_failure, Decoder as StreamingDecoder,
    Encoder as StreamingEncoder, Event, ExtEventModel, ExtFailure, ExtParsed,
};
use crate::extended::{
    BigInt, BignumDecodeStyle, DateTime, DateTimeDecodeStyle, DateTimeEncodeStyle,
    DecodeExtensionConfig, EncodeExtensionConfig,
};
use vstd::prelude::*;

verus! {

broadcast use vstd::std_specs::vec::group_vec_axioms, vstd::seq::group_seq_axioms;

/// An item of CBOR with extensions.
#[derive(Debug, PartialEq, Eq)]
#[non_exhaustive]
pub enum Item {
    /// An unsigned integer.
    Unsigned(u64),
    /// A negative integer whose value is -1 minus the payload.
    Signed(u64),
    /// A floating-point number.
    Float(FloatBits),
    /// A byte string.
    ByteString(Vec<u8>),
    /// A text string.
    TextString(String),
    /// An array.
    Array(Vec<Item>),
    /// A map, as its key/value pairs in order.
    Dict(Vec<(Item, Item)>),
    /// A tagged item whose tag has no extension semantics.
    UnrecognizedTag(u64, Box<Item>),
    /// A simple value.
    Simple(u8),
    /// A date/time (tags 0 and 1).
    ChronoDateTime(DateTime),
    /// A bignum (tags 2 and 3).
    NumBigInt(BigInt),
}

/// The mathematical content of an extended [`Item`].
pub enum ExtItemModel {
    Unsigned(u64),
    Signed(u64),
    Float(FloatBits),
    ByteString(Seq<u8>),
    TextString(Seq<char>),
    Array(Seq<ExtItemModel>),
    Dict(Seq<(ExtItemModel, ExtItemModel)>),
    UnrecognizedTag(u64, Box<ExtItemModel>),
    Simple(u8),
    DateTime(i64, u32, i32),
    BigInt(bool, Seq<u8>),
}

pub open spec fn item_view(i: Item) -> ExtItemModel
    decreases i,
{
    match i {
        Item::Unsigned(n) => ExtItemModel::Unsigned(n),
        Item::Signed(n) => ExtItemModel::Signed(n),
        Item::Float(f) => ExtItemModel::Float(f),
        Item::ByteString(b) => ExtItemModel::ByteString(b@),
        Item::TextString(t) => ExtItemModel::TextString(t@),
        Item::Array(v) => ExtItemModel::Array(items_view(v@)),
        Item::Dict(v) => ExtItemModel::Dict(pairs_view(v@)),
        Item::UnrecognizedTag(t, b) => ExtItemModel::UnrecognizedTag(t, Box::new(item_view(*b))),
        Item::Simple(s) => ExtItemModel::Simple(s),
        Item::ChronoDateTime(d) => ExtItemModel::DateTime(
            d.spec_timestamp(),
            d.spec_nanos(),
            d.spec_offset(),
        ),
        Item::NumBigInt(b) => ExtItemModel::BigInt(b.spec_negative(), b.spec_magnitude()),
    }
}

pub open spec fn items_view(s: Seq<Item>) -> Seq<ExtItemModel>
    decreases s,
{
    if s.len() == 0 {
        Seq::empty()
    } else {
        items_view(s.drop_last()).push(item_view(s.last()))
    }
}

pub open spec fn pairs_view(s: Seq<(Item, Item)>) -> Seq<(ExtItemModel, ExtItemModel)>
    decreases s,
{
    if s.len() == 0 {
        Seq::empty()
    } else {
        pairs_view(s.drop_last()).push((item_view(s.last().0), item_view(s.last().1)))
    }
}

/// Where an extended decoder stands: the event it holds back, the pending stack of its
/// basic decoder and the bytes left.
pub struct ExtState {
    pub queued: Option<ExtEventModel>,
    pub stack: Seq<Pending>,
    pub input: Seq<u8>,
}

/// The state of a decoder.
pub open spec fn state_of(d: StreamingDecoder) -> ExtState {
    ExtState { queued: d.queued(), stack: d.basic().pending(), input: d.basic().remaining() }
}

/// `a` is strictly closer to the end of the input than `b`.
pub open spec fn smaller(a: ExtState, b: ExtState) -> bool {
    a.input.len() < b.input.len() || (a.input.len() == b.input.len() && a.queued is None
        && b.queued is Some)
}

pub open spec fn rank(s: ExtState) -> nat {
    2 * s.input.len() + if s.queued is Some {
        1nat
    } else {
        0nat
    }
}

/// What one step of an extended decoder gives.
pub enum ExtStep {
    Event(ExtEventModel, ExtState),
    Failed(ExtFailure),
}

/// One step of an extended decoder from `st`.
pub open spec fn ext_step(config: DecodeExtensionConfig, st: ExtState) -> ExtStep {
    match st.queued {
        Some(e) => ExtStep::Event(e, ExtState { queued: None, ..st }),
        None => match parse_ext_event(config, st.stack, st.input) {
            ExtParsed::Event(m, q, rest, s) => ExtStep::Event(
                m,
                ExtState {
                    queued: match q {
                        Some(b) => Some(ExtEventModel::Basic(b)),
                        None => None,
                    },
                    stack: s,
                    input: rest,
                },
            ),
            ExtParsed::Failed(f) => ExtStep::Failed(f),
        },
    }
}

/// What building one extended item gives.
pub enum ExtTreeParsed {
    Item(ExtItemModel, ExtState),
    Break(ExtState),
    Failed(ExtFailure),
}

/// The fragments of a string of unknown length, read from the basic decoder.
pub open spec fn ext_chunks(st: ExtState, text: bool) -> ExtTreeParsed {
    let p = if text {
        parse_text_chunks(st.stack, st.input, Seq::empty())
    } else {
        parse_byte_chunks(st.stack, st.input, Seq::empty())
    };
    match p {
        TreeParsed::Item(ItemModel::ByteString(b), rest, s) => ExtTreeParsed::Item(
            ExtItemModel::ByteString(b),
            ExtState { queued: st.queued, stack: s, input: rest },
        ),
        TreeParsed::Item(ItemModel::TextString(t), rest, s) => ExtTreeParsed::Item(
            ExtItemModel::TextString(t),
            ExtState { queued: st.queued, stack: s, input: rest },
        ),
        TreeParsed::Failed(f) => ExtTreeParsed::Failed(tree_failure(f)),
        _ => ExtTreeParsed::Failed(ExtFailure::Malformed),
    }
}

/// Building one extended item from `st`.
pub open spec fn parse_ext_tree(config: DecodeExtensionConfig, st: ExtState) -> ExtTreeParsed
    decreases rank(st), 0nat,
{
    match ext_step(config, st) {
        ExtStep::Failed(f) => ExtTreeParsed::Failed(f),
        ExtStep::Event(m, st1) => if !smaller(st1, st) {
            ExtTreeParsed::Failed(ExtFailure::Malformed)
        } else {
            match m {
                ExtEventModel::DateTime(a, b, c) => ExtTreeParsed::Item(
                    ExtItemModel::DateTime(a, b, c),
                    st1,
                ),
                ExtEventModel::BigInt(n, mag) => ExtTreeParsed::Item(
                    ExtItemModel::BigInt(n, mag),
                    st1,
                ),
                ExtEventModel::Basic(e) => match e {
                    EventModel::Unsigned(n) => ExtTreeParsed::Item(ExtItemModel::Unsigned(n), st1),
                    EventModel::Signed(n) => ExtTreeParsed::Item(ExtItemModel::Signed(n), st1),
                    EventModel::ByteString(b) => ExtTreeParsed::Item(
                        ExtItemModel::ByteString(b),
                        st1,
                    ),
                    EventModel::TextString(t) => ExtTreeParsed::Item(
                        ExtItemModel::TextString(t),
                        st1,
                    ),
                    EventModel::Simple(v) => ExtTreeParsed::Item(ExtItemModel::Simple(v), st1),
                    EventModel::Float(f) => ExtTreeParsed::Item(ExtItemModel::Float(f), st1),
                    EventModel::Break => ExtTreeParsed::Break(st1),
                    EventModel::UnknownLengthByteString => ext_chunks(st1, false),
                    EventModel::UnknownLengthTextString => ext_chunks(st1, true),
                    EventModel::Array(n) => parse_ext_array(config, st1, n as nat, Seq::empty()),
                    EventModel::UnknownLengthArray => parse_ext_open_array(
                        config,
                        st1,
                        Seq::empty(),
                    ),
                    EventModel::SizedMap(n) => parse_ext_map(config, st1, n as nat, Seq::empty()),
                    EventModel::UnknownLengthMap => parse_ext_open_map(config, st1, Seq::empty()),
                    EventModel::Tag(t) => match parse_ext_tree(config, st1) {
                        ExtTreeParsed::Item(x, st2) => ExtTreeParsed::Item(
                            ExtItemModel::UnrecognizedTag(t, Box::new(x)),
                            st2,
                        ),
                        ExtTreeParsed::Break(_) => ExtTreeParsed::Failed(ExtFailure::Malformed),
                        ExtTreeParsed::Failed(f) => ExtTreeParsed::Failed(f),
                    },
                },
            }
        },
    }
}

/// The last `n` items of a definite array, after `acc` has been built.
pub open spec fn parse_ext_array(
    config: DecodeExtensionConfig,
    st: ExtState,
    n: nat,
    acc: Seq<ExtItemModel>,
) -> ExtTreeParsed
    decreases rank(st), 1nat,
{
    if n == 0 {
        ExtTreeParsed::Item(ExtItemModel::Array(acc), st)
    } else {
        match parse_ext_tree(config, st) {
            ExtTreeParsed::Item(x, st2) => if smaller(st2, st) {
                parse_ext_array(config, st2, (n - 1) as nat, acc.push(x))
            } else {
                ExtTreeParsed::Failed(ExtFailure::Malformed)
            },
            ExtTreeParsed::Break(_) => ExtTreeParsed::Failed(ExtFailure::Malformed),
            ExtTreeParsed::Failed(f) => ExtTreeParsed::Failed(f),
        }
    }
}

/// The rest of an array of unknown length, after `acc` has been built.
pub open spec fn parse_ext_open_array(
    config: DecodeExtensionConfig,
    st: ExtState,
    acc: Seq<ExtItemModel>,
) -> ExtTreeParsed
    decreases rank(st), 1nat,
{
    match parse_ext_tree(config, st) {
        ExtTreeParsed::Item(x, st2) => if smaller(st2, st) {
            parse_ext_open_array(config, st2, acc.push(x))
        } else {
            ExtTreeParsed::Failed(ExtFailure::Malformed)
        },
        ExtTreeParsed::Break(st2) => ExtTreeParsed::Item(ExtItemModel::Array(acc), st2),
        ExtTreeParsed::Failed(f) => ExtTreeParsed::Failed(f),
    }
}

/// The last `n` pairs of a definite map, after `acc` has been built.
pub open spec fn parse_ext_map(
    config: DecodeExtensionConfig,
    st: ExtState,
    n: nat,
    acc: Seq<(ExtItemModel, ExtItemModel)>,
) -> ExtTreeParsed
    decreases rank(st), 1nat,
{
    if n == 0 {
        ExtTreeParsed::Item(ExtItemModel::Dict(acc), st)
    } else {
        match parse_ext_tree(config, st) {
            ExtTreeParsed::Item(key, st1) => if smaller(st1, st) {
                parse_ext_map_value(config, st1, n, acc, key)
            } else {
                ExtTreeParsed::Failed(ExtFailure::Malformed)
            },
            ExtTreeParsed::Break(_) => ExtTreeParsed::Failed(ExtFailure::Malformed),
            ExtTreeParsed::Failed(f) => ExtTreeParsed::Failed(f),
        }
    }
}

/// The value of the pair with `key` in a definite map that has `n` pairs left, then the
/// rest of the map.
pub open spec fn parse_ext_map_value(
    config: DecodeExtensionConfig,
    st: ExtState,
    n: nat,
    acc: Seq<(ExtItemModel, ExtItemModel)>,
    key: ExtItemModel,
) -> ExtTreeParsed
    decreases rank(st), 2nat,
{
    match parse_ext_tree(config, st) {
        ExtTreeParsed::Item(value, st2) => if smaller(st2, st) && n > 0 {
            parse_ext_map(config, st2, (n - 1) as nat, acc.push((key, value)))
        } else {
            ExtTreeParsed::Failed(ExtFailure::Malformed)
        },
        ExtTreeParsed::Break(_) => ExtTreeParsed::Failed(ExtFailure::Malformed),
        ExtTreeParsed::Failed(f) => ExtTreeParsed::Failed(f),
    }
}

/// The rest of a map of unknown length, after `acc` has been built.
pub open spec fn parse_ext_open_map(
    config: DecodeExtensionConfig,
    st: ExtState,
    acc: Seq<(ExtItemModel, ExtItemModel)>,
) -> ExtTreeParsed
    decreases rank(st), 1nat,
{
    match parse_ext_tree(config, st) {
        ExtTreeParsed::Item(key, st1) => if smaller(st1, st) {
            parse_ext_open_map_value(config, st1, acc, key)
        } else {
            ExtTreeParsed::Failed(ExtFailure::Malformed)
        },
        ExtTreeParsed::Break(st2) => ExtTreeParsed::Item(ExtItemModel::Dict(acc), st2),
        ExtTreeParsed::Failed(f) => ExtTreeParsed::Failed(f),
    }
}

/// The value of the pair with `key` in a map of unknown length, then the rest of the map.
pub open spec fn parse_ext_open_map_value(
    config: DecodeExtensionConfig,
    st: ExtState,
    acc: Seq<(ExtItemModel, ExtItemModel)>,
    key: ExtItemModel,
) -> ExtTreeParsed
    decreases rank(st), 2nat,
{
    match parse_ext_tree(config, st) {
        ExtTreeParsed::Item(value, st2) => if smaller(st2, st) {
            parse_ext_open_map(config, st2, acc.push((key, value)))
        } else {
            ExtTreeParsed::Failed(ExtFailure::Malformed)
        },
        ExtTreeParsed::Break(_) => ExtTreeParsed::Failed(ExtFailure::Malformed),
        ExtTreeParsed::Failed(f) => ExtTreeParsed::Failed(f),
    }
}

/// `r` and the decoder `d` are what building an item gave: `p`.
pub open spec fn ext_tree_outcome(
    r: Result<Option<Item>, DecodeError>,
    p: ExtTreeParsed,
    d: StreamingDecoder,
) -> bool {
    match p {
        ExtTreeParsed::Item(m, st) => {
            &&& r matches Ok(Some(item)) && item_view(item) == m
            &&& state_of(d) == st
        },
        ExtTreeParsed::Break(st) => {
            &&& r matches Ok(None)
            &&& state_of(d) == st
        },
        ExtTreeParsed::Failed(f) => r matches Err(e) && ext_failure_matches(e, f),
    }
}

fn is_smaller(len1: usize, queued1: bool, len0: usize, queued0: bool) -> (r: bool)
    ensures
        r == (len1 < len0 || (len1 == len0 && !queued1 && queued0)),
{
    len1 < len0 || (len1 == len0 && !queued1 && queued0)
}

/// A tree-building decoder for CBOR with extensions.
#[derive(Debug, Clone, Copy)]
pub struct Decoder {
    config: DecodeExtensionConfig,
}

impl Decoder {
    /// The options in force.
    pub closed spec fn config(&self) -> DecodeExtensionConfig {
        self.config
    }

    /// A decoder with the default options.
    pub fn new() -> (r: Self)
        ensures
            r.config().date_time_style == DateTimeDecodeStyle::Ignore,
            r.config().bignum_style == BignumDecodeStyle::Convert,
    {
        Decoder { config: DecodeExtensionConfig::new() }
    }

    /// How date-times are decoded.
    pub fn date_time_style(&self) -> (r: &DateTimeDecodeStyle)
        ensures
            *r == self.config().date_time_style,
    {
        &self.config.date_time_style
    }

    /// Sets how date-times are decoded.
    pub fn set_date_time_style(&mut self, value: DateTimeDecodeStyle)
        ensures
            final(self).config() == (DecodeExtensionConfig {
                date_time_style: value,
                ..old(self).config()
            }),
    {
        self.config.date_time_style = value;
    }

    /// How bignums are decoded.
    pub fn bignum_style(&self) -> (r: &BignumDecodeStyle)
        ensures
            *r == self.config().bignum_style,
    {
        &self.config.bignum_style
    }

    /// Sets how bignums are decoded.
    pub fn set_bignum_style(&mut self, value: BignumDecodeStyle)
        ensures
            final(self).config() == (DecodeExtensionConfig {
                bignum_style: value,
                ..old(self).config()
            }),
    {
        self.config.bignum_style = value;
    }

    /// Decodes one item from the start of `source` with this decoder's options. A break
    /// where the item should start is malformed.
    pub fn decode(&self, source: Vec<u8>) -> (r: Result<Item, DecodeError>)
        ensures
            match parse_ext_tree(
                self.config(),
                ExtState { queued: None, stack: Seq::empty(), input: source@ },
            ) {
                ExtTreeParsed::Item(m, _) => r matches Ok(item) && item_view(item) == m,
                ExtTreeParsed::Break(_) => r == Err::<Item, DecodeError>(DecodeError::Malformed),
                ExtTreeParsed::Failed(f) => r matches Err(e) && ext_failure_matches(e, f),
            },
    {
        let mut decoder = StreamingDecoder::new(source);
        decoder.set_date_time_style(self.config.date_time_style);
        decoder.set_bignum_style(self.config.bignum_style);
        proof {
            assert(decoder.config() == self.config);
            assert(state_of(decoder) == ExtState {
                queued: None,
                stack: Seq::<Pending>::empty(),
                input: source@,
            });
        }
        match self.decode_from_stream(&mut decoder) {
            Ok(Some(item)) => Ok(item),
            Ok(None) => Err(DecodeError::Malformed),
            Err(e) => Err(e),
        }
    }

    /// Decodes one item from an extended streaming decoder, with that decoder's options.
    /// `Ok(None)` says that the first event was a break.
    pub fn decode_from_stream(&self, decoder: &mut StreamingDecoder) -> (r: Result<
        Option<Item>,
        DecodeError,
    >)
        ensures
            final(decoder).config() == old(decoder).config(),
            ext_tree_outcome(
                r,
                parse_ext_tree(old(decoder).config(), state_of(*old(decoder))),
                *final(decoder),
            ),
        decreases rank(state_of(*old(decoder))), 0nat,
    {
        let len0 = decoder.remaining_len();
        let queued0 = decoder.has_queued();
        let event = match decoder.next_event() {
            Ok(e) => e,
            Err(e) => {
                return Err(e);
            },
        };
        let len1 = decoder.remaining_len();
        let queued1 = decoder.has_queued();
        if !is_smaller(len1, queued1, len0, queued0) {
            return Err(DecodeError::Malformed);
        }
        match event {
            Event::Unsigned(n) => Ok(Some(Item::Unsigned(n))),
            Event::Signed(n) => Ok(Some(Item::Signed(n))),
            Event::ByteString(b) => Ok(Some(Item::ByteString(b))),
            Event::TextString(t) => Ok(Some(Item::TextString(t))),
            Event::Simple(v) => Ok(Some(Item::Simple(v))),
            Event::Float(f) => Ok(Some(Item::Float(f))),
            Event::ChronoDateTime(d) => Ok(Some(Item::ChronoDateTime(d))),
            Event::NumBigInt(b) => Ok(Some(Item::NumBigInt(b))),
            Event::Break => Ok(None),
            Event::UnknownLengthByteString => match decoder.read_unknown_length_byte_string_body() {
                Ok(b) => Ok(Some(Item::ByteString(b))),
                Err(e) => Err(e),
            },
            Event::UnknownLengthTextString => match decoder.read_unknown_length_text_string_body() {
                Ok(t) => Ok(Some(Item::TextString(t))),
                Err(e) => Err(e),
            },
            Event::Array(n) => self.read_array(decoder, n),
            Event::UnknownLengthArray => self.read_open_array(decoder),
            Event::SizedMap(n) => self.read_map(decoder, n),
            Event::UnknownLengthMap => self.read_open_map(decoder),
            Event::UnrecognizedTag(t) => match self.decode_from_stream(decoder) {
                Ok(Some(item)) => Ok(Some(Item::UnrecognizedTag(t, Box::new(item)))),
                Ok(None) => Err(DecodeError::Malformed),
                Err(e) => Err(e),
            },
        }
    }

    fn read_array(&self, decoder: &mut StreamingDecoder, n: u64) -> (r: Result<Option<Item>, DecodeError>)
        ensures
            final(decoder).config() == old(decoder).config(),
            ext_tree_outcome(
                r,
                parse_ext_array(old(decoder).config(), state_of(*old(decoder)), n as nat, Seq::empty()),
                *final(decoder),
            ),
        decreases rank(state_of(*old(decoder))), 1nat,
    {
        let ghost target = parse_ext_array(decoder.config(), state_of(*decoder), n as nat, Seq::empty());
        let mut items: Vec<Item> = Vec::new();
        let mut i: u64 = 0;
        while i < n
            invariant
                i <= n,
                decoder.config() == old(decoder).config(),
                target == parse_ext_array(old(decoder).config(), state_of(*old(decoder)), n as nat, Seq::empty()),
                parse_ext_array(decoder.config(), state_of(*decoder), (n - i) as nat, items_view(items@)) == target,
                rank(state_of(*decoder)) <= rank(state_of(*old(decoder))),
            decreases n - i,
        {
            let len0 = decoder.remaining_len();
            let queued0 = decoder.has_queued();
            match self.decode_from_stream(decoder) {
                Ok(Some(item)) => {
                    if !is_smaller(decoder.remaining_len(), decoder.has_queued(), len0, queued0) {
                        return Err(DecodeError::Malformed);
                    }
                    let ghost old_items = items@;
                    items.push(item);
                    assert(items@.drop_last() =~= old_items);
                },
                Ok(None) => {
                    return Err(DecodeError::Malformed);
                },
                Err(e) => {
                    return Err(e);
                },
            }
            i = i + 1;
        }
        Ok(Some(Item::Array(items)))
    }

    fn read_open_array(&self, decoder: &mut StreamingDecoder) -> (r: Result<Option<Item>, DecodeError>)
        ensures
            final(decoder).config() == old(decoder).config(),
            ext_tree_outcome(
                r,
                parse_ext_open_array(old(decoder).config(), state_of(*old(decoder)), Seq::empty()),
                *final(decoder),
            ),
        decreases rank(state_of(*old(decoder))), 1nat,
    {
        let ghost target = parse_ext_open_array(decoder.config(), state_of(*decoder), Seq::empty());
        let mut items: Vec<Item> = Vec::new();
        loop
            invariant
                decoder.config() == old(decoder).config(),
                target == parse_ext_open_array(old(decoder).config(), state_of(*old(decoder)), Seq::empty()),
                parse_ext_open_array(decoder.config(), state_of(*decoder), items_view(items@)) == target,
                rank(state_of(*decoder)) <= rank(state_of(*old(decoder))),
            decreases rank(state_of(*decoder)),
        {
            let len0 = decoder.remaining_len();
            let queued0 = decoder.has_queued();
            match self.decode_from_stream(decoder) {
                Ok(Some(item)) => {
                    if !is_smaller(decoder.remaining_len(), decoder.has_queued(), len0, queued0) {
                        return Err(DecodeError::Malformed);
                    }
                    let ghost old_items = items@;
                    items.push(item);
                    assert(items@.drop_last() =~= old_items);
                },
                Ok(None) => {
                    return Ok(Some(Item::Array(items)));
                },
                Err(e) => {
                    return Err(e);
                },
            }
        }
    }

    fn read_map(&self, decoder: &mut StreamingDecoder, n: u64) -> (r: Result<Option<Item>, DecodeError>)
        ensures
            final(decoder).config() == old(decoder).config(),
            ext_tree_outcome(
                r,
                parse_ext_map(old(decoder).config(), state_of(*old(decoder)), n as nat, Seq::empty()),
                *final(decoder),
            ),
        decreases rank(state_of(*old(decoder))), 1nat,
    {
        let ghost target = parse_ext_map(decoder.config(), state_of(*decoder), n as nat, Seq::empty());
        let mut pairs: Vec<(Item, Item)> = Vec::new();
        let mut i: u64 = 0;
        while i < n
            invariant
                i <= n,
                decoder.config() == old(decoder).config(),
                target == parse_ext_map(old(decoder).config(), state_of(*old(decoder)), n as nat, Seq::empty()),
                parse_ext_map(decoder.config(), state_of(*decoder), (n - i) as nat, pairs_view(pairs@)) == target,
                rank(state_of(*decoder)) <= rank(state_of(*old(decoder))),
            decreases n - i,
        {
            let len0 = decoder.remaining_len();
            let queued0 = decoder.has_queued();
            let key = match self.decode_from_stream(decoder) {
                Ok(Some(key)) => key,
                Ok(None) => {
                    return Err(DecodeError::Malformed);
                },
                Err(e) => {
                    return Err(e);
                },
            };
            let len1 = decoder.remaining_len();
            let queued1 = decoder.has_queued();
            if !is_smaller(len1, queued1, len0, queued0) {
                return Err(DecodeError::Malformed);
            }
            let value = match self.decode_from_stream(decoder) {
                Ok(Some(value)) => value,
                Ok(None) => {
                    return Err(DecodeError::Malformed);
                },
                Err(e) => {
                    return Err(e);
                },
            };
            if !is_smaller(decoder.remaining_len(), decoder.has_queued(), len1, queued1) {
                return Err(DecodeError::Malformed);
            }
            let ghost old_pairs = pairs@;
            pairs.push((key, value));
            assert(pairs@.drop_last() =~= old_pairs);
            i = i + 1;
        }
        Ok(Some(Item::Dict(pairs)))
    }

    fn read_open_map(&self, decoder: &mut StreamingDecoder) -> (r: Result<Option<Item>, DecodeError>)
        ensures
            final(decoder).config() == old(decoder).config(),
            ext_tree_outcome(
                r,
                parse_ext_open_map(old(decoder).config(), state_of(*old(decoder)), Seq::empty()),
                *final(decoder),
            ),
        decreases rank(state_of(*old(decoder))), 1nat,
    {
        let ghost target = parse_ext_open_map(decoder.config(), state_of(*decoder), Seq::empty());
        let mut pairs: Vec<(Item, Item)> = Vec::new();
        loop
            invariant
                decoder.config() == old(decoder).config(),
                target == parse_ext_open_map(old(decoder).config(), state_of(*old(decoder)), Seq::empty()),
                parse_ext_open_map(decoder.config(), state_of(*decoder), pairs_view(pairs@)) == target,
                rank(state_of(*decoder)) <= rank(state_of(*old(decoder))),
            decreases rank(state_of(*decoder)),
        {
            let len0 = decoder.remaining_len();
            let queued0 = decoder.has_queued();
            let key = match self.decode_from_stream(decoder) {
                Ok(Some(key)) => key,
                Ok(None) => {
                    return Ok(Some(Item::Dict(pairs)));
                },
                Err(e) => {
                    return Err(e);
                },
            };
            let len1 = decoder.remaining_len();
            let queued1 = decoder.has_queued();
            if !is_smaller(len1, queued1, len0, queued0) {
                return Err(DecodeError::Malformed);
            }
            let value = match self.decode_from_stream(decoder) {
                Ok(Some(value)) => value,
                Ok(None) => {
                    return Err(DecodeError::Malformed);
                },
                Err(e) => {
                    return Err(e);
                },
            };
            if !is_smaller(decoder.remaining_len(), decoder.has_queued(), len1, queued1) {
                return Err(DecodeError::Malformed);
            }
            let ghost old_pairs = pairs@;
            pairs.push((key, value));
            assert(pairs@.drop_last() =~= old_pairs);
        }
    }
}

/// The bytes of a sequence of basic events, one after the other.
pub open spec fn events_bytes(es: Seq<EventModel>) -> Seq<u8>
    decreases es.len(),
{
    if es.len() == 0 {
        Seq::empty()
    } else {
        encode_event(es[0]) + events_bytes(es.drop_first())
    }
}

/// The encoder accepts every sequence without a `Break`, and writes its events' bytes.
proof fn lemma_encode_without_break(stack: Seq<Pending>, es: Seq<EventModel>)
    requires
        forall|i: int| 0 <= i < es.len() ==> es[i] != EventModel::Break,
    ensures
        encode_events(stack, es) matches Some((bytes, _)) && bytes == events_bytes(es),
    decreases es.len(),
{
    if es.len() > 0 {
        let tail = es.drop_first();
        assert forall|i: int| 0 <= i < tail.len() implies tail[i] != EventModel::Break by {
            assert(tail[i] == es[i + 1]);
        }
        lemma_encode_without_break(stack_after(stack, es[0]), tail);
    }
}

/// The bytes that the extended tree encoder writes for an item, with date-times written in
/// `style`.
pub open spec fn ext_item_bytes(style: DateTimeEncodeStyle, m: ExtItemModel) -> Seq<u8>
    decreases m,
{
    match m {
        ExtItemModel::Unsigned(n) => encode_event(EventModel::Unsigned(n)),
        ExtItemModel::Signed(n) => encode_event(EventModel::Signed(n)),
        ExtItemModel::Float(f) => encode_event(EventModel::Float(f)),
        ExtItemModel::ByteString(b) => encode_event(EventModel::ByteString(b)),
        ExtItemModel::TextString(t) => encode_event(EventModel::TextString(t)),
        ExtItemModel::Simple(v) => encode_event(EventModel::Simple(v)),
        ExtItemModel::Array(s) => encode_event(EventModel::Array(s.len() as u64))
            + ext_items_bytes(style, s),
        ExtItemModel::Dict(s) => encode_event(EventModel::SizedMap(s.len() as u64))
            + ext_pairs_bytes(style, s),
        ExtItemModel::UnrecognizedTag(t, b) => encode_event(EventModel::Tag(t)) + ext_item_bytes(
            style,
            *b,
        ),
        ExtItemModel::DateTime(a, b, c) => events_bytes(
            ext_events(style, ExtEventModel::DateTime(a, b, c)),
        ),
        ExtItemModel::BigInt(n, mag) => events_bytes(
            ext_events(style, ExtEventModel::BigInt(n, mag)),
        ),
    }
}

pub open spec fn ext_items_bytes(style: DateTimeEncodeStyle, s: Seq<ExtItemModel>) -> Seq<u8>
    decreases s,
{
    if s.len() == 0 {
        Seq::empty()
    } else {
        ext_items_bytes(style, s.drop_last()) + ext_item_bytes(style, s.last())
    }
}

pub open spec fn ext_pairs_bytes(
    style: DateTimeEncodeStyle,
    s: Seq<(ExtItemModel, ExtItemModel)>,
) -> Seq<u8>
    decreases s,
{
    if s.len() == 0 {
        Seq::empty()
    } else {
        ext_pairs_bytes(style, s.drop_last()) + ext_item_bytes(style, s.last().0) + ext_item_bytes(
            style,
            s.last().1,
        )
    }
}

pub proof fn lemma_items_view_len(s: Seq<Item>)
    ensures
        items_view(s).len() == s.len(),
    decreases s.len(),
{
    if s.len() > 0 {
        lemma_items_view_len(s.drop_last());
    }
}

pub proof fn lemma_pairs_view_len(s: Seq<(Item, Item)>)
    ensures
        pairs_view(s).len() == s.len(),
    decreases s.len(),
{
    if s.len() > 0 {
        lemma_pairs_view_len(s.drop_last());
    }
}

proof fn lemma_items_bytes_push(style: DateTimeEncodeStyle, s: Seq<Item>, i: int)
    requires
        0 <= i < s.len(),
    ensures
        ext_items_bytes(style, items_view(s.subrange(0, i + 1))) == ext_items_bytes(
            style,
            items_view(s.subrange(0, i)),
        ) + ext_item_bytes(style, item_view(s[i])),
{
    let x = s.subrange(0, i + 1);
    let y = items_view(s.subrange(0, i));
    assert(x.drop_last() =~= s.subrange(0, i));
    assert(x.last() == s[i]);
    assert(items_view(x) == y.push(item_view(s[i])));
    assert(y.push(item_view(s[i])).drop_last() =~= y);
}

proof fn lemma_pairs_bytes_push(style: DateTimeEncodeStyle, s: Seq<(Item, Item)>, i: int)
    requires
        0 <= i < s.len(),
    ensures
        ext_pairs_bytes(style, pairs_view(s.subrange(0, i + 1))) == ext_pairs_bytes(
            style,
            pairs_view(s.subrange(0, i)),
        ) + ext_item_bytes(style, item_view(s[i].0)) + ext_item_bytes(style, item_view(s[i].1)),
{
    let x = s.subrange(0, i + 1);
    let y = pairs_view(s.subrange(0, i));
    let p = (item_view(s[i].0), item_view(s[i].1));
    assert(x.drop_last() =~= s.subrange(0, i));
    assert(x.last() == s[i]);
    assert(pairs_view(x) == y.push(p));
    assert(y.push(p).drop_last() =~= y);
}

proof fn lemma_events_bytes_single(e: EventModel)
    ensures
        events_bytes(seq![e]) == encode_event(e),
{
    assert(seq![e].drop_first() =~= Seq::<EventModel>::empty());
    assert(seq![e][0] == e);
    assert(events_bytes(Seq::<EventModel>::empty()) == Seq::<u8>::empty());
    assert(encode_event(e) + Seq::<u8>::empty() =~= encode_event(e));
}

/// Feeds one event that holds no `Break` in its expansion.
fn feed(encoder: &mut StreamingEncoder, e: Event)
    requires
        forall|i: int|
            0 <= i < ext_events(old(encoder).config().date_time_style, e@).len() ==> (#[trigger] ext_events(
                old(encoder).config().date_time_style,
                e@,
            )[i]) != EventModel::Break,
    ensures
        final(encoder).config() == old(encoder).config(),
        final(encoder).basic().written() == old(encoder).basic().written() + events_bytes(
            ext_events(old(encoder).config().date_time_style, e@),
        ),
        ({
            let es = ext_events(old(encoder).config().date_time_style, e@);
            let s0 = old(encoder).basic().pending();
            &&& es.len() == 1 ==> final(encoder).basic().pending() == stack_after(s0, es[0])
            &&& es.len() == 2 ==> final(encoder).basic().pending() == stack_after(
                stack_after(s0, es[0]),
                es[1],
            )
        }),
{
    proof {
        reveal_with_fuel(encode_events, 3);
        lemma_encode_without_break(
            old(encoder).basic().pending(),
            ext_events(old(encoder).config().date_time_style, e@),
        );
    }
    let _ = encoder.feed_event(e);
}

/// A tree-walking encoder for CBOR with extensions.
#[derive(Debug, Clone, Copy)]
pub struct Encoder {
    config: EncodeExtensionConfig,
}

impl Encoder {
    /// The options in force.
    pub closed spec fn config(&self) -> EncodeExtensionConfig {
        self.config
    }

    /// An encoder with the default options.
    pub fn new() -> (r: Self)
        ensures
            r.config().date_time_style == DateTimeEncodeStyle::PreferText,
    {
        Encoder { config: EncodeExtensionConfig::new() }
    }

    /// How date-times are encoded.
    pub fn date_time_style(&self) -> (r: &DateTimeEncodeStyle)
        ensures
            *r == self.config().date_time_style,
    {
        &self.config.date_time_style
    }

    /// Sets how date-times are encoded.
    pub fn set_date_time_style(&mut self, value: DateTimeEncodeStyle)
        ensures
            final(self).config().date_time_style == value,
    {
        self.config.date_time_style = value;
    }

    /// Appends the encoding of `cbor` to `dest`, with this encoder's options, and hands
    /// `dest` back.
    pub fn encode(&self, cbor: &Item, dest: Vec<u8>) -> (r: Result<Vec<u8>, EncodeError>)
        ensures
            r matches Ok(out) && out@ == dest@ + ext_item_bytes(
                self.config().date_time_style,
                item_view(*cbor),
            ),
    {
        let mut encoder = StreamingEncoder::new(dest);
        encoder.set_date_time_style(self.config.date_time_style);
        match self.encode_to_stream(cbor, &mut encoder) {
            Ok(()) => Ok(encoder.into_inner()),
            Err(e) => Err(e),
        }
    }

    /// Feeds the events of `cbor` to an extended streaming encoder, with that encoder's
    /// options: definite lengths throughout.
    pub fn encode_to_stream(&self, cbor: &Item, encoder: &mut StreamingEncoder) -> (r: Result<
        (),
        EncodeError,
    >)
        ensures
            r is Ok,
            final(encoder).config() == old(encoder).config(),
            final(encoder).basic().written() == old(encoder).basic().written() + ext_item_bytes(
                old(encoder).config().date_time_style,
                item_view(*cbor),
            ),
            final(encoder).basic().pending() == advance(old(encoder).basic().pending()),
        decreases cbor,
    {
        let ghost style = encoder.config().date_time_style;
        let ghost after = advance(encoder.basic().pending());
        match cbor {
            Item::Array(items) => {
                feed(encoder, Event::Array(items.len() as u64));
                proof {
                    lemma_events_bytes_single(EventModel::Array(items.len() as u64));
                }
                let ghost start = encoder.basic().written();
                let ghost n = items@.len();
                let mut i: usize = 0;
                proof {
                    assert(items@.subrange(0, 0) =~= Seq::<Item>::empty());
                }
                while i < items.len()
                    invariant
                        *cbor == Item::Array(*items),
                        i <= items@.len(),
                        encoder.config().date_time_style == style,
                        start == old(encoder).basic().written() + encode_event(EventModel::Array(items@.len() as u64)),
                        encoder.basic().written() == start + ext_items_bytes(style, items_view(items@.subrange(0, i as int))),
                        encoder.config() == old(encoder).config(),
                        n == items@.len(),
                        after == advance(old(encoder).basic().pending()),
                        encoder.basic().pending() == if i < n {
                            after.push(Pending::Array((n - i) as u64))
                        } else {
                            after
                        },
                    decreases items@.len() - i,
                {
                    proof {
                        lemma_items_bytes_push(style, items@, i as int);
                        assert(decreases_to!(*cbor => (*cbor)->Array_0));
                        assert(decreases_to!((*cbor)->Array_0 => ((*cbor)->Array_0)@));
                        assert(decreases_to!(items@ => items@[i as int]));
                    }
                    let ghost frame = Pending::Array((n - i) as u64);
                    let _ = self.encode_to_stream(&items[i], encoder);
                    assert(after.push(frame).drop_last() =~= after);
                    i = i + 1;
                }
                proof {
                    assert(items@.subrange(0, items@.len() as int) =~= items@);
                    lemma_items_view_len(items@);
                }
                Ok(())
            },
            Item::Dict(pairs) => {
                feed(encoder, Event::SizedMap(pairs.len() as u64));
                proof {
                    lemma_events_bytes_single(EventModel::SizedMap(pairs.len() as u64));
                }
                let ghost start = encoder.basic().written();
                let ghost n = pairs@.len();
                let mut i: usize = 0;
                proof {
                    assert(pairs@.subrange(0, 0) =~= Seq::<(Item, Item)>::empty());
                }
                while i < pairs.len()
                    invariant
                        *cbor == Item::Dict(*pairs),
                        i <= pairs@.len(),
                        encoder.config().date_time_style == style,
                        start == old(encoder).basic().written() + encode_event(EventModel::SizedMap(pairs@.len() as u64)),
                        encoder.basic().written() == start + ext_pairs_bytes(style, pairs_view(pairs@.subrange(0, i as int))),
                        encoder.config() == old(encoder).config(),
                        n == pairs@.len(),
                        after == advance(old(encoder).basic().pending()),
                        encoder.basic().pending() == if i < n {
                            after.push(Pending::SizedMap((n - i) as u64, true))
                        } else {
                            after
                        },
                    decreases pairs@.len() - i,
                {
                    proof {
                        lemma_pairs_bytes_push(style, pairs@, i as int);
                        assert(decreases_to!(pairs@[i as int] => pairs@[i as int].0));
                        assert(decreases_to!(pairs@[i as int] => pairs@[i as int].1));
                        assert(decreases_to!(pairs@ => pairs@[i as int]));
                        assert(decreases_to!(*cbor => (*cbor)->Dict_0));
                        assert(decreases_to!((*cbor)->Dict_0 => ((*cbor)->Dict_0)@));
                    }
                    let ghost waiting_key = Pending::SizedMap((n - i) as u64, true);
                    let ghost waiting_value = Pending::SizedMap((n - i) as u64, false);
                    let _ = self.encode_to_stream(&pairs[i].0, encoder);
                    assert(after.push(waiting_key).drop_last() =~= after);
                    let _ = self.encode_to_stream(&pairs[i].1, encoder);
                    assert(after.push(waiting_value).drop_last() =~= after);
                    i = i + 1;
                }
                proof {
                    assert(pairs@.subrange(0, pairs@.len() as int) =~= pairs@);
                    lemma_pairs_view_len(pairs@);
                }
                Ok(())
            },
            Item::UnrecognizedTag(t, inner) => {
                feed(encoder, Event::UnrecognizedTag(*t));
                proof {
                    lemma_events_bytes_single(EventModel::Tag(*t));
                }
                let _ = self.encode_to_stream(inner, encoder);
                assert(after.push(Pending::Tag).drop_last() =~= after);
                Ok(())
            },
            Item::Unsigned(n) => {
                feed(encoder, Event::Unsigned(*n));
                proof {
                    lemma_events_bytes_single(EventModel::Unsigned(*n));
                }
                Ok(())
            },
            Item::Signed(n) => {
                feed(encoder, Event::Signed(*n));
                proof {
                    lemma_events_bytes_single(EventModel::Signed(*n));
                }
                Ok(())
            },
            Item::Float(f) => {
                feed(encoder, Event::Float(*f));
                proof {
                    lemma_events_bytes_single(EventModel::Float(*f));
                }
                Ok(())
            },
            Item::Simple(v) => {
                feed(encoder, Event::Simple(*v));
                proof {
                    lemma_events_bytes_single(EventModel::Simple(*v));
                }
                Ok(())
            },
            Item::ByteString(b) => {
                let copy = copy_range(b, 0, b.len());
                assert(copy@ =~= b@);
                feed(encoder, Event::ByteString(copy));
                proof {
                    lemma_events_bytes_single(EventModel::ByteString(b@));
                }
                Ok(())
            },
            Item::TextString(t) => {
                feed(encoder, Event::TextString(t.clone()));
                proof {
                    lemma_events_bytes_single(EventModel::TextString(t@));
                }
                Ok(())
            },
            Item::ChronoDateTime(d) => {
                feed(encoder, Event::ChronoDateTime(*d));
                assert(after.push(Pending::Tag).drop_last() =~= after);
                Ok(())
            },
            Item::NumBigInt(b) => {
                feed(encoder, Event::NumBigInt(b.duplicate()));
                assert(after.push(Pending::Tag).drop_last() =~= after);
                Ok(())
            },
        }
    }
}

impl Item {
    /// See [`crate::basic::streaming::Event::interpret_signed`].
    pub fn interpret_signed(val: u64) -> (r: i64)
        ensures
            r as int == crate::basic::streaming::negative_wrapped(val),
    {
        Event::interpret_signed(val)
    }

    /// See [`crate::basic::streaming::Event::interpret_signed_checked`].
    pub fn interpret_signed_checked(val: u64) -> (r: Option<i64>)
        ensures
            val < 0x8000_0000_0000_0000 ==> r == Some((-1 - val) as i64),
            val >= 0x8000_0000_0000_0000 ==> r is None,
    {
        Event::interpret_signed_checked(val)
    }

    /// See [`crate::basic::streaming::Event::interpret_signed_wide`].
    pub fn interpret_signed_wide(val: u64) -> (r: i128)
        ensures
            r == -1 - val,
    {
        Event::interpret_signed_wide(val)
    }

    /// The `Unsigned` or `Signed` item for `val`.
    pub fn create_signed(val: i64) -> (r: Item)
        ensures
            item_int(item_view(r)) == Some(val as int),
    {
        if val < 0 {
            Item::Signed((-1 - val) as u64)
        } else {
            Item::Unsigned(val as u64)
        }
    }

    /// The `Unsigned` or `Signed` item for `val`, or `None` where `val` is outside the
    /// range of CBOR's basic integers, `-2^64 ..= 2^64 - 1`.
    pub fn create_signed_wide(val: i128) -> (r: Option<Item>)
        ensures
            -0x1_0000_0000_0000_0000 <= val < 0x1_0000_0000_0000_0000 ==> (r matches Some(i)
                && item_int(item_view(i)) == Some(val as int)),
            !(-0x1_0000_0000_0000_0000 <= val < 0x1_0000_0000_0000_0000) ==> r is None,
    {
        match Event::create_signed_wide(val) {
            Some(Event::Unsigned(n)) => Some(Item::Unsigned(n)),
            Some(Event::Signed(n)) => Some(Item::Signed(n)),
            _ => None,
        }
    }
}

/// The integer that an `Unsigned` or `Signed` item stands for.
pub open spec fn item_int(m: ExtItemModel) -> Option<int> {
    match m {
        ExtItemModel::Unsigned(n) => Some(n as int),
        ExtItemModel::Signed(n) => Some(-1 - n),
        _ => None,
    }
}

} // verus!
