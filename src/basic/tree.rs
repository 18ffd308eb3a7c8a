//! Whole CBOR items: a decoder that builds an [`Item`] from the events of a streaming
//! decoder and an encoder that walks an [`Item`] into a streaming encoder.
use crate::basic::streaming::{
    advance, copy_range, encode_event, head, lemma_parse_event_size, parse_event, stack_after, Decoder as StreamingDecoder,
    negative_wrapped, Encoder as StreamingEncoder, Event, EventModel, FloatBits, Parsed, Pending,
};
use crate::errors::{DecodeError, EncodeError};
use vstd::prelude::*;
use vstd::string::StringExecFns;

verus! {

broadcast use vstd::std_specs::vec::group_vec_axioms, vstd::seq::group_seq_axioms;

/// An item of the CBOR basic data model.
#[derive(Debug, PartialEq, Eq)]
pub enum Item {
    /// An unsigned integer.
    Unsigned(u64),
    /// A negative integer whose value is -1 minus the payload.
    Signed(u64),
    /// A floating-point number.
    Float(FloatBits),
    /// A byte string.
    ByteString(Vec<u8>),
    /// A text string.
    TextString(String),
    /// An array.
    Array(Vec<Item>),
    /// A map, as its key/value pairs in order.
    Dict(Vec<(Item, Item)>),
    /// A tagged item.
    Tag(u64, Box<Item>),
    /// A simple value.
    Simple(u8),
}

/// The mathematical content of an [`Item`].
pub enum ItemModel {
    Unsigned(u64),
    Signed(u64),
    Float(FloatBits),
    ByteString(Seq<u8>),
    TextString(Seq<char>),
    Array(Seq<ItemModel>),
    Dict(Seq<(ItemModel, ItemModel)>),
    Tag(u64, Box<ItemModel>),
    Simple(u8),
}

pub open spec fn item_view(i: Item) -> ItemModel
    decreases i,
{
    match i {
        Item::Unsigned(n) => ItemModel::Unsigned(n),
        Item::Signed(n) => ItemModel::Signed(n),
        Item::Float(f) => ItemModel::Float(f),
        Item::ByteString(b) => ItemModel::ByteString(b@),
        Item::TextString(t) => ItemModel::TextString(t@),
        Item::Array(v) => ItemModel::Array(items_view(v@)),
        Item::Dict(v) => ItemModel::Dict(pairs_view(v@)),
        Item::Tag(t, b) => ItemModel::Tag(t, Box::new(item_view(*b))),
        Item::Simple(s) => ItemModel::Simple(s),
    }
}

pub open spec fn items_view(s: Seq<Item>) -> Seq<ItemModel>
    decreases s,
{
    if s.len() == 0 {
        Seq::empty()
    } else {
        items_view(s.drop_last()).push(item_view(s.last()))
    }
}

pub open spec fn pairs_view(s: Seq<(Item, Item)>) -> Seq<(ItemModel, ItemModel)>
    decreases s,
{
    if s.len() == 0 {
        Seq::empty()
    } else {
        pairs_view(s.drop_last()).push((item_view(s.last().0), item_view(s.last().1)))
    }
}

/// The bytes that the tree encoder writes for an item: definite lengths throughout, each
/// head in its shortest form.
pub open spec fn item_bytes(m: ItemModel) -> Seq<u8>
    decreases m,
{
    match m {
        ItemModel::Unsigned(n) => head(0, n),
        ItemModel::Signed(n) => head(1, n),
        ItemModel::Float(f) => encode_event(EventModel::Float(f)),
        ItemModel::ByteString(b) => encode_event(EventModel::ByteString(b)),
        ItemModel::TextString(t) => encode_event(EventModel::TextString(t)),
        ItemModel::Array(s) => head(4, s.len() as u64) + items_bytes(s),
        ItemModel::Dict(s) => head(5, s.len() as u64) + pairs_bytes(s),
        ItemModel::Tag(t, b) => head(6, t) + item_bytes(*b),
        ItemModel::Simple(v) => head(7, v as u64),
    }
}

pub open spec fn items_bytes(s: Seq<ItemModel>) -> Seq<u8>
    decreases s,
{
    if s.len() == 0 {
        Seq::empty()
    } else {
        items_bytes(s.drop_last()) + item_bytes(s.last())
    }
}

pub open spec fn pairs_bytes(s: Seq<(ItemModel, ItemModel)>) -> Seq<u8>
    decreases s,
{
    if s.len() == 0 {
        Seq::empty()
    } else {
        pairs_bytes(s.drop_last()) + item_bytes(s.last().0) + item_bytes(s.last().1)
    }
}

/// Why building an item failed.
pub enum TreeFailure {
    /// The events break the grammar, or an item is missing where a break stands.
    Malformed,
    /// The input ended inside the item.
    Insufficient,
    /// A text string held these bytes, which are not UTF-8.
    BadText(Seq<u8>),
}

/// What building one item from the start of `input` gives.
pub enum TreeParsed {
    /// This item, the bytes after it and the pending stack after it.
    Item(ItemModel, Seq<u8>, Seq<Pending>),
    /// A break stood where the item would start; the bytes after it and the stack after it.
    Break(Seq<u8>, Seq<Pending>),
    Failed(TreeFailure),
}

/// The failure that a failed event read gives.
pub open spec fn event_failure(p: Parsed) -> TreeFailure {
    match p {
        Parsed::BadText(b) => TreeFailure::BadText(b),
        Parsed::Short => TreeFailure::Insufficient,
        _ => TreeFailure::Malformed,
    }
}

/// Building one item from the start of `input` with `stack` pending.
pub open spec fn parse_tree(stack: Seq<Pending>, input: Seq<u8>) -> TreeParsed
    decreases input.len(), 0nat,
{
    match parse_event(stack, input) {
        Parsed::Event(e, k) => if k == 0 || k > input.len() {
            TreeParsed::Failed(TreeFailure::Malformed)
        } else {
            let s1 = stack_after(stack, e);
            let in1 = input.skip(k as int);
            match e {
                EventModel::Unsigned(n) => TreeParsed::Item(ItemModel::Unsigned(n), in1, s1),
                EventModel::Signed(n) => TreeParsed::Item(ItemModel::Signed(n), in1, s1),
                EventModel::ByteString(b) => TreeParsed::Item(ItemModel::ByteString(b), in1, s1),
                EventModel::TextString(t) => TreeParsed::Item(ItemModel::TextString(t), in1, s1),
                EventModel::Simple(v) => TreeParsed::Item(ItemModel::Simple(v), in1, s1),
                EventModel::Float(f) => TreeParsed::Item(ItemModel::Float(f), in1, s1),
                EventModel::Break => TreeParsed::Break(in1, s1),
                EventModel::UnknownLengthByteString => parse_byte_chunks(s1, in1, Seq::empty()),
                EventModel::UnknownLengthTextString => parse_text_chunks(s1, in1, Seq::empty()),
                EventModel::Array(n) => parse_array(s1, in1, n as nat, Seq::empty()),
                EventModel::UnknownLengthArray => parse_open_array(s1, in1, Seq::empty()),
                EventModel::SizedMap(n) => parse_map(s1, in1, n as nat, Seq::empty()),
                EventModel::UnknownLengthMap => parse_open_map(s1, in1, Seq::empty()),
                EventModel::Tag(t) => match parse_tree(s1, in1) {
                    TreeParsed::Item(m, rest, s) => TreeParsed::Item(
                        ItemModel::Tag(t, Box::new(m)),
                        rest,
                        s,
                    ),
                    TreeParsed::Break(_, _) => TreeParsed::Failed(TreeFailure::Malformed),
                    TreeParsed::Failed(f) => TreeParsed::Failed(f),
                },
            }
        },
        p => TreeParsed::Failed(event_failure(p)),
    }
}

/// The fragments of a byte string of unknown length, after `acc` has been gathered.
pub open spec fn parse_byte_chunks(stack: Seq<Pending>, input: Seq<u8>, acc: Seq<u8>) -> TreeParsed
    decreases input.len(), 1nat,
{
    match parse_event(stack, input) {
        Parsed::Event(e, k) => if k == 0 || k > input.len() {
            TreeParsed::Failed(TreeFailure::Malformed)
        } else {
            match e {
                EventModel::ByteString(b) => parse_byte_chunks(
                    stack_after(stack, e),
                    input.skip(k as int),
                    acc + b,
                ),
                EventModel::Break => TreeParsed::Item(
                    ItemModel::ByteString(acc),
                    input.skip(k as int),
                    stack_after(stack, e),
                ),
                _ => TreeParsed::Failed(TreeFailure::Malformed),
            }
        },
        p => TreeParsed::Failed(event_failure(p)),
    }
}

/// The fragments of a text string of unknown length, after `acc` has been gathered.
pub open spec fn parse_text_chunks(stack: Seq<Pending>, input: Seq<u8>, acc: Seq<char>) -> TreeParsed
    decreases input.len(), 1nat,
{
    match parse_event(stack, input) {
        Parsed::Event(e, k) => if k == 0 || k > input.len() {
            TreeParsed::Failed(TreeFailure::Malformed)
        } else {
            match e {
                EventModel::TextString(t) => parse_text_chunks(
                    stack_after(stack, e),
                    input.skip(k as int),
                    acc + t,
                ),
                EventModel::Break => TreeParsed::Item(
                    ItemModel::TextString(acc),
                    input.skip(k as int),
                    stack_after(stack, e),
                ),
                _ => TreeParsed::Failed(TreeFailure::Malformed),
            }
        },
        p => TreeParsed::Failed(event_failure(p)),
    }
}

/// The last `n` items of a definite array, after `acc` has been built.
pub open spec fn parse_array(
    stack: Seq<Pending>,
    input: Seq<u8>,
    n: nat,
    acc: Seq<ItemModel>,
) -> TreeParsed
    decreases input.len(), 1nat,
{
    if n == 0 {
        TreeParsed::Item(ItemModel::Array(acc), input, stack)
    } else {
        match parse_tree(stack, input) {
            TreeParsed::Item(m, rest, s) => if rest.len() < input.len() {
                parse_array(s, rest, (n - 1) as nat, acc.push(m))
            } else {
                TreeParsed::Failed(TreeFailure::Malformed)
            },
            TreeParsed::Break(_, _) => TreeParsed::Failed(TreeFailure::Malformed),
            TreeParsed::Failed(f) => TreeParsed::Failed(f),
        }
    }
}

/// The rest of an array of unknown length, after `acc` has been built.
pub open spec fn parse_open_array(stack: Seq<Pending>, input: Seq<u8>, acc: Seq<ItemModel>) -> TreeParsed
    decreases input.len(), 1nat,
{
    match parse_tree(stack, input) {
        TreeParsed::Item(m, rest, s) => if rest.len() < input.len() {
            parse_open_array(s, rest, acc.push(m))
        } else {
            TreeParsed::Failed(TreeFailure::Malformed)
        },
        TreeParsed::Break(rest, s) => TreeParsed::Item(ItemModel::Array(acc), rest, s),
        TreeParsed::Failed(f) => TreeParsed::Failed(f),
    }
}

/// The last `n` pairs of a definite map, after `acc` has been built.
pub open spec fn parse_map(
    stack: Seq<Pending>,
    input: Seq<u8>,
    n: nat,
    acc: Seq<(ItemModel, ItemModel)>,
) -> TreeParsed
    decreases input.len(), 1nat,
{
    if n == 0 {
        TreeParsed::Item(ItemModel::Dict(acc), input, stack)
    } else {
        match parse_tree(stack, input) {
            TreeParsed::Item(key, rest1, s1) => if rest1.len() < input.len() {
                parse_map_value(s1, rest1, n, acc, key)
            } else {
                TreeParsed::Failed(TreeFailure::Malformed)
            },
            TreeParsed::Break(_, _) => TreeParsed::Failed(TreeFailure::Malformed),
            TreeParsed::Failed(f) => TreeParsed::Failed(f),
        }
    }
}

/// The value of the pair with `key` in a definite map that has `n` pairs left, then the
/// rest of the map.
pub open spec fn parse_map_value(
    stack: Seq<Pending>,
    input: Seq<u8>,
    n: nat,
    acc: Seq<(ItemModel, ItemModel)>,
    key: ItemModel,
) -> TreeParsed
    decreases input.len(), 2nat,
{
    match parse_tree(stack, input) {
        TreeParsed::Item(value, rest, s) => if rest.len() < input.len() && n > 0 {
            parse_map(s, rest, (n - 1) as nat, acc.push((key, value)))
        } else {
            TreeParsed::Failed(TreeFailure::Malformed)
        },
        TreeParsed::Break(_, _) => TreeParsed::Failed(TreeFailure::Malformed),
        TreeParsed::Failed(f) => TreeParsed::Failed(f),
    }
}

/// The rest of a map of unknown length, after `acc` has been built.
pub open spec fn parse_open_map(
    stack: Seq<Pending>,
    input: Seq<u8>,
    acc: Seq<(ItemModel, ItemModel)>,
) -> TreeParsed
    decreases input.len(), 1nat,
{
    match parse_tree(stack, input) {
        TreeParsed::Item(key, rest1, s1) => if rest1.len() < input.len() {
            parse_open_map_value(s1, rest1, acc, key)
        } else {
            TreeParsed::Failed(TreeFailure::Malformed)
        },
        TreeParsed::Break(rest, s) => TreeParsed::Item(ItemModel::Dict(acc), rest, s),
        TreeParsed::Failed(f) => TreeParsed::Failed(f),
    }
}

/// The value of the pair with `key` in a map of unknown length, then the rest of the map.
pub open spec fn parse_open_map_value(
    stack: Seq<Pending>,
    input: Seq<u8>,
    acc: Seq<(ItemModel, ItemModel)>,
    key: ItemModel,
) -> TreeParsed
    decreases input.len(), 2nat,
{
    match parse_tree(stack, input) {
        TreeParsed::Item(value, rest, s) => if rest.len() < input.len() {
            parse_open_map(s, rest, acc.push((key, value)))
        } else {
            TreeParsed::Failed(TreeFailure::Malformed)
        },
        TreeParsed::Break(_, _) => TreeParsed::Failed(TreeFailure::Malformed),
        TreeParsed::Failed(f) => TreeParsed::Failed(f),
    }
}

/// The decoding error that stands for a failure.
pub open spec fn failure_matches(e: DecodeError, f: TreeFailure) -> bool {
    match f {
        TreeFailure::Malformed => e == DecodeError::Malformed,
        TreeFailure::Insufficient => e == DecodeError::Insufficient,
        TreeFailure::BadText(b) => e matches DecodeError::InvalidUtf8(v) && v@ == b,
    }
}

/// `r` and the decoder's state `d` are what building an item gave: `p`.
pub open spec fn tree_outcome(
    r: Result<Option<Item>, DecodeError>,
    p: TreeParsed,
    d: StreamingDecoder,
) -> bool {
    match p {
        TreeParsed::Item(m, rest, s) => {
            &&& r matches Ok(Some(item)) && item_view(item) == m
            &&& d.remaining() == rest
            &&& d.pending() == s
        },
        TreeParsed::Break(rest, s) => {
            &&& r matches Ok(None)
            &&& d.remaining() == rest
            &&& d.pending() == s
        },
        TreeParsed::Failed(f) => r matches Err(e) && failure_matches(e, f),
    }
}

/// Reads the fragments of a byte string of unknown length, whose start has been read, up
/// to its break.
pub fn read_byte_chunks(decoder: &mut StreamingDecoder) -> (r: Result<Vec<u8>, DecodeError>)
    ensures
        match parse_byte_chunks(old(decoder).pending(), old(decoder).remaining(), Seq::empty()) {
            TreeParsed::Item(ItemModel::ByteString(b), rest, s) => {
                &&& r matches Ok(v) && v@ == b
                &&& final(decoder).remaining() == rest
                &&& final(decoder).pending() == s
            },
            TreeParsed::Failed(f) => r matches Err(e) && failure_matches(e, f),
            _ => false,
        },
{
    let ghost target = parse_byte_chunks(decoder.pending(), decoder.remaining(), Seq::empty());
    let mut buffer: Vec<u8> = Vec::new();
    loop
        invariant
            target == parse_byte_chunks(old(decoder).pending(), old(decoder).remaining(), Seq::empty()),
            parse_byte_chunks(decoder.pending(), decoder.remaining(), buffer@) == target,
        decreases decoder.remaining().len(),
    {
        proof {
            lemma_parse_event_size(decoder.pending(), decoder.remaining());
        }
        match decoder.next_event() {
            Ok(Event::ByteString(b)) => {
                let ghost before = buffer@;
                buffer.extend_from_slice(b.as_slice());
                assert(buffer@ =~= before + b@);
            },
            Ok(Event::Break) => {
                return Ok(buffer);
            },
            Ok(_) => {
                return Err(DecodeError::Malformed);
            },
            Err(e) => {
                return Err(e);
            },
        }
    }
}

/// Reads the fragments of a text string of unknown length, whose start has been read, up
/// to its break.
pub fn read_text_chunks(decoder: &mut StreamingDecoder) -> (r: Result<String, DecodeError>)
    ensures
        match parse_text_chunks(old(decoder).pending(), old(decoder).remaining(), Seq::empty()) {
            TreeParsed::Item(ItemModel::TextString(t), rest, s) => {
                &&& r matches Ok(v) && v@ == t
                &&& final(decoder).remaining() == rest
                &&& final(decoder).pending() == s
            },
            TreeParsed::Failed(f) => r matches Err(e) && failure_matches(e, f),
            _ => false,
        },
{
    let ghost target = parse_text_chunks(decoder.pending(), decoder.remaining(), Seq::empty());
    let mut buffer = String::new();
    loop
        invariant
            target == parse_text_chunks(old(decoder).pending(), old(decoder).remaining(), Seq::empty()),
            parse_text_chunks(decoder.pending(), decoder.remaining(), buffer@) == target,
        decreases decoder.remaining().len(),
    {
        proof {
            lemma_parse_event_size(decoder.pending(), decoder.remaining());
        }
        match decoder.next_event() {
            Ok(Event::TextString(t)) => {
                buffer.append(t.as_str());
            },
            Ok(Event::Break) => {
                return Ok(buffer);
            },
            Ok(_) => {
                return Err(DecodeError::Malformed);
            },
            Err(e) => {
                return Err(e);
            },
        }
    }
}


/// A tree-building decoder for the CBOR basic data model.
#[derive(Debug, Clone)]
pub struct Decoder {}

impl Decoder {
    pub fn new() -> Self {
        Decoder {  }
    }

    /// Decodes one item from the start of `source`. A break where the item should start is
    /// malformed.
    pub fn decode(&self, source: Vec<u8>) -> (r: Result<Item, DecodeError>)
        ensures
            match parse_tree(Seq::empty(), source@) {
                TreeParsed::Item(m, _, _) => r matches Ok(item) && item_view(item) == m,
                TreeParsed::Break(_, _) => r == Err::<Item, DecodeError>(DecodeError::Malformed),
                TreeParsed::Failed(f) => r matches Err(e) && failure_matches(e, f),
            },
    {
        let mut decoder = StreamingDecoder::new(source);
        match self.decode_from_stream(&mut decoder) {
            Ok(Some(item)) => Ok(item),
            Ok(None) => Err(DecodeError::Malformed),
            Err(e) => Err(e),
        }
    }

    /// Decodes one item from a streaming decoder. `Ok(None)` says that the first event was a
    /// break, which the caller may or may not accept.
    pub fn decode_from_stream(&self, decoder: &mut StreamingDecoder) -> (r: Result<
        Option<Item>,
        DecodeError,
    >)
        ensures
            tree_outcome(r, parse_tree(old(decoder).pending(), old(decoder).remaining()), *final(decoder)),
        decreases old(decoder).remaining().len(), 0nat,
    {
        let ghost stack0 = decoder.pending();
        let ghost input0 = decoder.remaining();
        proof {
            lemma_parse_event_size(stack0, input0);
        }
        let event = match decoder.next_event() {
            Ok(e) => e,
            Err(e) => {
                return Err(e);
            },
        };
        match event {
            Event::Unsigned(n) => Ok(Some(Item::Unsigned(n))),
            Event::Signed(n) => Ok(Some(Item::Signed(n))),
            Event::ByteString(b) => Ok(Some(Item::ByteString(b))),
            Event::TextString(t) => Ok(Some(Item::TextString(t))),
            Event::Simple(v) => Ok(Some(Item::Simple(v))),
            Event::Float(f) => Ok(Some(Item::Float(f))),
            Event::Break => Ok(None),
            Event::UnknownLengthByteString => match read_byte_chunks(decoder) {
                Ok(b) => Ok(Some(Item::ByteString(b))),
                Err(e) => Err(e),
            },
            Event::UnknownLengthTextString => match read_text_chunks(decoder) {
                Ok(t) => Ok(Some(Item::TextString(t))),
                Err(e) => Err(e),
            },
            Event::Array(n) => self.read_array(decoder, n),
            Event::UnknownLengthArray => self.read_open_array(decoder),
            Event::SizedMap(n) => self.read_map(decoder, n),
            Event::UnknownLengthMap => self.read_open_map(decoder),
            Event::Tag(t) => match self.decode_from_stream(decoder) {
                Ok(Some(item)) => Ok(Some(Item::Tag(t, Box::new(item)))),
                Ok(None) => Err(DecodeError::Malformed),
                Err(e) => Err(e),
            },
        }
    }

    fn read_array(&self, decoder: &mut StreamingDecoder, n: u64) -> (r: Result<Option<Item>, DecodeError>)
        ensures
            tree_outcome(
                r,
                parse_array(old(decoder).pending(), old(decoder).remaining(), n as nat, Seq::empty()),
                *final(decoder),
            ),
        decreases old(decoder).remaining().len(), 1nat,
    {
        let ghost target = parse_array(decoder.pending(), decoder.remaining(), n as nat, Seq::empty());
        let mut items: Vec<Item> = Vec::new();
        let mut i: u64 = 0;
        while i < n
            invariant
                i <= n,
target == parse_array(old(decoder).pending(), old(decoder).remaining(), n as nat, Seq::empty()),
                parse_array(decoder.pending(), decoder.remaining(), (n - i) as nat, items_view(items@))
                    == target,
                decoder.remaining().len() <= old(decoder).remaining().len(),
            decreases n - i,
        {
            let before = decoder.remaining_len();
            match self.decode_from_stream(decoder) {
                Ok(Some(item)) => {
                    if decoder.remaining_len() >= before {
                        return Err(DecodeError::Malformed);
                    }
                    let ghost old_items = items@;
                    items.push(item);
                    assert(items@.drop_last() =~= old_items);
                },
                Ok(None) => {
                    return Err(DecodeError::Malformed);
                },
                Err(e) => {
                    return Err(e);
                },
            }
            i = i + 1;
        }
        Ok(Some(Item::Array(items)))
    }

    fn read_open_array(&self, decoder: &mut StreamingDecoder) -> (r: Result<Option<Item>, DecodeError>)
        ensures
            tree_outcome(
                r,
                parse_open_array(old(decoder).pending(), old(decoder).remaining(), Seq::empty()),
                *final(decoder),
            ),
        decreases old(decoder).remaining().len(), 1nat,
    {
        let ghost target = parse_open_array(decoder.pending(), decoder.remaining(), Seq::empty());
        let mut items: Vec<Item> = Vec::new();
        loop
            invariant
                target == parse_open_array(old(decoder).pending(), old(decoder).remaining(), Seq::empty()),
                parse_open_array(decoder.pending(), decoder.remaining(), items_view(items@)) == target,
                decoder.remaining().len() <= old(decoder).remaining().len(),
            decreases decoder.remaining().len(),
        {
            let before = decoder.remaining_len();
            match self.decode_from_stream(decoder) {
                Ok(Some(item)) => {
                    if decoder.remaining_len() >= before {
                        return Err(DecodeError::Malformed);
                    }
                    let ghost old_items = items@;
                    items.push(item);
                    assert(items@.drop_last() =~= old_items);
                },
                Ok(None) => {
                    return Ok(Some(Item::Array(items)));
                },
                Err(e) => {
                    return Err(e);
                },
            }
        }
    }

    fn read_map(&self, decoder: &mut StreamingDecoder, n: u64) -> (r: Result<Option<Item>, DecodeError>)
        ensures
            tree_outcome(
                r,
                parse_map(old(decoder).pending(), old(decoder).remaining(), n as nat, Seq::empty()),
                *final(decoder),
            ),
        decreases old(decoder).remaining().len(), 1nat,
    {
        let ghost target = parse_map(decoder.pending(), decoder.remaining(), n as nat, Seq::empty());
        let mut pairs: Vec<(Item, Item)> = Vec::new();
        let mut i: u64 = 0;
        while i < n
            invariant
                i <= n,
target == parse_map(old(decoder).pending(), old(decoder).remaining(), n as nat, Seq::empty()),
                parse_map(decoder.pending(), decoder.remaining(), (n - i) as nat, pairs_view(pairs@))
                    == target,
                decoder.remaining().len() <= old(decoder).remaining().len(),
            decreases n - i,
        {
            let before = decoder.remaining_len();
            let key = match self.decode_from_stream(decoder) {
                Ok(Some(key)) => key,
                Ok(None) => {
                    return Err(DecodeError::Malformed);
                },
                Err(e) => {
                    return Err(e);
                },
            };
            let middle = decoder.remaining_len();
            if middle >= before {
                return Err(DecodeError::Malformed);
            }
            let value = match self.decode_from_stream(decoder) {
                Ok(Some(value)) => value,
                Ok(None) => {
                    return Err(DecodeError::Malformed);
                },
                Err(e) => {
                    return Err(e);
                },
            };
            if decoder.remaining_len() >= middle {
                return Err(DecodeError::Malformed);
            }
            let ghost old_pairs = pairs@;
            pairs.push((key, value));
            assert(pairs@.drop_last() =~= old_pairs);
            i = i + 1;
        }
        Ok(Some(Item::Dict(pairs)))
    }

    fn read_open_map(&self, decoder: &mut StreamingDecoder) -> (r: Result<Option<Item>, DecodeError>)
        ensures
            tree_outcome(
                r,
                parse_open_map(old(decoder).pending(), old(decoder).remaining(), Seq::empty()),
                *final(decoder),
            ),
        decreases old(decoder).remaining().len(), 1nat,
    {
        let ghost target = parse_open_map(decoder.pending(), decoder.remaining(), Seq::empty());
        let mut pairs: Vec<(Item, Item)> = Vec::new();
        loop
            invariant
                target == parse_open_map(old(decoder).pending(), old(decoder).remaining(), Seq::empty()),
                parse_open_map(decoder.pending(), decoder.remaining(), pairs_view(pairs@)) == target,
                decoder.remaining().len() <= old(decoder).remaining().len(),
            decreases decoder.remaining().len(),
        {
            let before = decoder.remaining_len();
            let key = match self.decode_from_stream(decoder) {
                Ok(Some(key)) => key,
                Ok(None) => {
                    return Ok(Some(Item::Dict(pairs)));
                },
                Err(e) => {
                    return Err(e);
                },
            };
            let middle = decoder.remaining_len();
            if middle >= before {
                return Err(DecodeError::Malformed);
            }
            let value = match self.decode_from_stream(decoder) {
                Ok(Some(value)) => value,
                Ok(None) => {
                    return Err(DecodeError::Malformed);
                },
                Err(e) => {
                    return Err(e);
                },
            };
            if decoder.remaining_len() >= middle {
                return Err(DecodeError::Malformed);
            }
            let ghost old_pairs = pairs@;
            pairs.push((key, value));
            assert(pairs@.drop_last() =~= old_pairs);
        }
    }
}

pub proof fn lemma_items_view_len(s: Seq<Item>)
    ensures
        items_view(s).len() == s.len(),
    decreases s.len(),
{
    if s.len() > 0 {
        lemma_items_view_len(s.drop_last());
    }
}

pub proof fn lemma_pairs_view_len(s: Seq<(Item, Item)>)
    ensures
        pairs_view(s).len() == s.len(),
    decreases s.len(),
{
    if s.len() > 0 {
        lemma_pairs_view_len(s.drop_last());
    }
}

proof fn lemma_items_bytes_push(s: Seq<Item>, i: int)
    requires
        0 <= i < s.len(),
    ensures
        items_bytes(items_view(s.subrange(0, i + 1))) == items_bytes(items_view(s.subrange(0, i)))
            + item_bytes(item_view(s[i])),
{
    let x = s.subrange(0, i + 1);
    let y = items_view(s.subrange(0, i));
    assert(x.drop_last() =~= s.subrange(0, i));
    assert(x.last() == s[i]);
    assert(items_view(x) == y.push(item_view(s[i])));
    assert(y.push(item_view(s[i])).drop_last() =~= y);
}

proof fn lemma_pairs_bytes_push(s: Seq<(Item, Item)>, i: int)
    requires
        0 <= i < s.len(),
    ensures
        pairs_bytes(pairs_view(s.subrange(0, i + 1))) == pairs_bytes(pairs_view(s.subrange(0, i)))
            + item_bytes(item_view(s[i].0)) + item_bytes(item_view(s[i].1)),
{
    let x = s.subrange(0, i + 1);
    let y = pairs_view(s.subrange(0, i));
    let p = (item_view(s[i].0), item_view(s[i].1));
    assert(x.drop_last() =~= s.subrange(0, i));
    assert(x.last() == s[i]);
    assert(pairs_view(x) == y.push(p));
    assert(y.push(p).drop_last() =~= y);
}

/// A tree-walking encoder for the CBOR basic data model.
#[derive(Debug, Clone)]
pub struct Encoder {}

impl Encoder {
    pub fn new() -> Self {
        Encoder {  }
    }

    /// Appends the encoding of `cbor` to `dest` and hands `dest` back.
    pub fn encode(&self, cbor: &Item, dest: Vec<u8>) -> (r: Result<Vec<u8>, EncodeError>)
        ensures
            r matches Ok(out) && out@ == dest@ + item_bytes(item_view(*cbor)),
    {
        let mut encoder = StreamingEncoder::new(dest);
        match self.encode_to_stream(cbor, &mut encoder) {
            Ok(()) => Ok(encoder.into_inner()),
            Err(e) => Err(e),
        }
    }

    /// Feeds the events of `cbor` to a streaming encoder: definite lengths throughout.
    pub fn encode_to_stream(&self, cbor: &Item, encoder: &mut StreamingEncoder) -> (r: Result<
        (),
        EncodeError,
    >)
        ensures
            r is Ok,
            final(encoder).written() == old(encoder).written() + item_bytes(item_view(*cbor)),
            final(encoder).pending() == advance(old(encoder).pending()),
        decreases cbor,
    {
        let ghost after = advance(encoder.pending());
        match cbor {
            Item::Unsigned(n) => encoder.feed_event(Event::Unsigned(*n)),
            Item::Signed(n) => encoder.feed_event(Event::Signed(*n)),
            Item::Float(f) => encoder.feed_event(Event::Float(*f)),
            Item::ByteString(bytes) => encoder.feed_event(
                Event::ByteString(copy_range(bytes, 0, bytes.len())),
            ),
            Item::TextString(text) => encoder.feed_event(Event::TextString(text.clone())),
            Item::Simple(v) => encoder.feed_event(Event::Simple(*v)),
            Item::Array(items) => {
                let _ = encoder.feed_event(Event::Array(items.len() as u64));
                let ghost start = encoder.written();
                let ghost n = items@.len();
                let mut i: usize = 0;
                proof {
                    assert(items@.subrange(0, 0) =~= Seq::<Item>::empty());
                }
                while i < items.len()
                    invariant
                        *cbor == Item::Array(*items),
                        i <= items@.len(),
                        start == old(encoder).written() + head(4, items@.len() as u64),
                        encoder.written() == start + items_bytes(items_view(items@.subrange(0, i as int))),
                        n == items@.len(),
                        after == advance(old(encoder).pending()),
                        encoder.pending() == if i < n {
                            after.push(Pending::Array((n - i) as u64))
                        } else {
                            after
                        },
                    decreases items@.len() - i,
                {
                    proof {
                        lemma_items_bytes_push(items@, i as int);
                        assert(decreases_to!(items@ => items@[i as int]));
                        assert(decreases_to!(*cbor => (*cbor)->Array_0));
                        assert(decreases_to!((*cbor)->Array_0 => ((*cbor)->Array_0)@));
                    }
                    let ghost frame = Pending::Array((n - i) as u64);
                    let _ = self.encode_to_stream(&items[i], encoder);
                    assert(after.push(frame).drop_last() =~= after);
                    i = i + 1;
                }
                proof {
                    assert(items@.subrange(0, items@.len() as int) =~= items@);
                    lemma_items_view_len(items@);
                }
                Ok(())
            },
            Item::Dict(pairs) => {
                let _ = encoder.feed_event(Event::SizedMap(pairs.len() as u64));
                let ghost start = encoder.written();
                let ghost n = pairs@.len();
                let mut i: usize = 0;
                proof {
                    assert(pairs@.subrange(0, 0) =~= Seq::<(Item, Item)>::empty());
                }
                while i < pairs.len()
                    invariant
                        *cbor == Item::Dict(*pairs),
                        i <= pairs@.len(),
                        start == old(encoder).written() + head(5, pairs@.len() as u64),
                        encoder.written() == start + pairs_bytes(pairs_view(pairs@.subrange(0, i as int))),
                        n == pairs@.len(),
                        after == advance(old(encoder).pending()),
                        encoder.pending() == if i < n {
                            after.push(Pending::SizedMap((n - i) as u64, true))
                        } else {
                            after
                        },
                    decreases pairs@.len() - i,
                {
                    proof {
                        lemma_pairs_bytes_push(pairs@, i as int);
                        assert(decreases_to!(pairs@[i as int] => pairs@[i as int].0));
                        assert(decreases_to!(pairs@[i as int] => pairs@[i as int].1));
                        assert(decreases_to!(pairs@ => pairs@[i as int]));
                        assert(decreases_to!(*cbor => (*cbor)->Dict_0));
                        assert(decreases_to!((*cbor)->Dict_0 => ((*cbor)->Dict_0)@));
                    }
                    let ghost waiting_key = Pending::SizedMap((n - i) as u64, true);
                    let ghost waiting_value = Pending::SizedMap((n - i) as u64, false);
                    let _ = self.encode_to_stream(&pairs[i].0, encoder);
                    assert(after.push(waiting_key).drop_last() =~= after);
                    let _ = self.encode_to_stream(&pairs[i].1, encoder);
                    assert(after.push(waiting_value).drop_last() =~= after);
                    i = i + 1;
                }
                proof {
                    assert(pairs@.subrange(0, pairs@.len() as int) =~= pairs@);
                    lemma_pairs_view_len(pairs@);
                }
                Ok(())
            },
            Item::Tag(t, inner) => {
                let _ = encoder.feed_event(Event::Tag(*t));
                let r = self.encode_to_stream(inner, encoder);
                assert(after.push(Pending::Tag).drop_last() =~= after);
                r
            },
        }
    }
}

/// The integer that an `Unsigned` or `Signed` item stands for.
pub open spec fn item_int(m: ItemModel) -> Option<int> {
    match m {
        ItemModel::Unsigned(n) => Some(n as int),
        ItemModel::Signed(n) => Some(-1 - n),
        _ => None,
    }
}

impl Item {
    /// See [`Event::interpret_signed`].
    pub fn interpret_signed(val: u64) -> (r: i64)
        ensures
            r as int == negative_wrapped(val),
    {
        Event::interpret_signed(val)
    }

    /// See [`Event::interpret_signed_checked`].
    pub fn interpret_signed_checked(val: u64) -> (r: Option<i64>)
        ensures
            val < 0x8000_0000_0000_0000 ==> r == Some((-1 - val) as i64),
            val >= 0x8000_0000_0000_0000 ==> r is None,
    {
        Event::interpret_signed_checked(val)
    }

    /// See [`Event::interpret_signed_wide`].
    pub fn interpret_signed_wide(val: u64) -> (r: i128)
        ensures
            r == -1 - val,
    {
        Event::interpret_signed_wide(val)
    }

    /// The `Unsigned` or `Signed` item for `val`.
    pub fn create_signed(val: i64) -> (r: Item)
        ensures
            item_int(item_view(r)) == Some(val as int),
    {
        match Event::create_signed(val) {
            Event::Unsigned(n) => Item::Unsigned(n),
            Event::Signed(n) => Item::Signed(n),
            _ => Item::Unsigned(0),
        }
    }

    /// The `Unsigned` or `Signed` item for `val`, or `None` where `val` is outside the
    /// range of CBOR's basic integers, `-2^64 ..= 2^64 - 1`.
    pub fn create_signed_wide(val: i128) -> (r: Option<Item>)
        ensures
            -0x1_0000_0000_0000_0000 <= val < 0x1_0000_0000_0000_0000 ==> (r matches Some(i)
                && item_int(item_view(i)) == Some(val as int)),
            !(-0x1_0000_0000_0000_0000 <= val < 0x1_0000_0000_0000_0000) ==> r is None,
    {
        match Event::create_signed_wide(val) {
            Some(Event::Unsigned(n)) => Some(Item::Unsigned(n)),
            Some(Event::Signed(n)) => Some(Item::Signed(n)),
            _ => None,
        }
    }
}

} // verus!
