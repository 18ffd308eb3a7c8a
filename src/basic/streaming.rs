//! Event-level CBOR: a decoder that turns bytes into [`Event`]s one at a time and an
//! encoder that turns [`Event`]s into bytes, both checking container structure with a
//! stack of [`Pending`] expectations.
use crate::errors::{DecodeError, EncodeError};
use crate::read_ints::{be_bytes, be_value, lemma_be_value_bound, lemma_pow256_values, push_be, read_be};
use vstd::prelude::*;
use vstd::utf8::{decode_utf8, encode_utf8, valid_utf8};

verus! {

/// The bits of a floating-point number as they stand on the wire, in the width they were
/// (or are to be) written in: IEEE 754 half, single or double precision.
#[derive(Debug, Clone, Copy, PartialEq, Eq, Structural)]
pub enum FloatBits {
    Half(u16),
    Single(u32),
    Double(u64),
}

/// One wire occurrence of the CBOR basic data model.
#[derive(Debug, Clone, PartialEq, Eq)]
pub enum Event {
    /// An unsigned integer (major type 0).
    Unsigned(u64),
    /// A negative integer (major type 1); its value is -1 minus the payload.
    Signed(u64),
    /// A byte string of known length.
    ByteString(Vec<u8>),
    /// The start of a byte string of unknown length: byte-string fragments follow, then a `Break`.
    UnknownLengthByteString,
    /// A text string of known length.
    TextString(String),
    /// The start of a text string of unknown length: text fragments follow, then a `Break`.
    UnknownLengthTextString,
    /// The start of an array with this many items.
    Array(u64),
    /// The start of an array that ends at the matching `Break`.
    UnknownLengthArray,
    /// The start of a map with this many key/value pairs.
    SizedMap(u64),
    /// The start of a map that ends at the matching `Break`.
    UnknownLengthMap,
    /// A tag that applies to the next item.
    Tag(u64),
    /// A simple value (20, 21, 22 and 23 are false, true, null and undefined).
    Simple(u8),
    /// A floating-point number.
    Float(FloatBits),
    /// The end of an item of unknown length.
    Break,
}

/// The mathematical content of an [`Event`].
pub enum EventModel {
    Unsigned(u64),
    Signed(u64),
    ByteString(Seq<u8>),
    UnknownLengthByteString,
    TextString(Seq<char>),
    UnknownLengthTextString,
    Array(u64),
    UnknownLengthArray,
    SizedMap(u64),
    UnknownLengthMap,
    Tag(u64),
    Simple(u8),
    Float(FloatBits),
    Break,
}

impl View for Event {
    type V = EventModel;

    open spec fn view(&self) -> EventModel {
        match self {
            Event::Unsigned(n) => EventModel::Unsigned(*n),
            Event::Signed(n) => EventModel::Signed(*n),
            Event::ByteString(b) => EventModel::ByteString(b@),
            Event::UnknownLengthByteString => EventModel::UnknownLengthByteString,
            Event::TextString(t) => EventModel::TextString(t@),
            Event::UnknownLengthTextString => EventModel::UnknownLengthTextString,
            Event::Array(n) => EventModel::Array(*n),
            Event::UnknownLengthArray => EventModel::UnknownLengthArray,
            Event::SizedMap(n) => EventModel::SizedMap(*n),
            Event::UnknownLengthMap => EventModel::UnknownLengthMap,
            Event::Tag(t) => EventModel::Tag(*t),
            Event::Simple(s) => EventModel::Simple(*s),
            Event::Float(f) => EventModel::Float(*f),
            Event::Break => EventModel::Break,
        }
    }
}

/// The integer that an `Unsigned` or `Signed` event stands for.
pub open spec fn event_int(e: EventModel) -> Option<int> {
    match e {
        EventModel::Unsigned(n) => Some(n as int),
        EventModel::Signed(n) => Some(-1 - n),
        _ => None,
    }
}

/// `-1 - v` as a 64-bit two's complement integer, that is modulo 2^64.
pub open spec fn negative_wrapped(v: u64) -> int {
    if v < 0x8000_0000_0000_0000 {
        -1 - v
    } else {
        0x1_0000_0000_0000_0000 - 1 - v
    }
}

impl Event {
    /// Returns the event itself: its payloads are always owned.
    pub fn into_owned(self) -> (r: Event)
        ensures
            r@ == self@,
    {
        self
    }

    /// Interprets the payload of a `Signed` event, wrapping modulo 2^64 where the value
    /// does not fit an `i64`.
    pub fn interpret_signed(val: u64) -> (r: i64)
        ensures
            r as int == negative_wrapped(val),
    {
        if val <= i64::MAX as u64 {
            -1 - (val as i64)
        } else {
            (u64::MAX - val) as i64
        }
    }

    /// Interprets the payload of a `Signed` event, or `None` where the value does not fit
    /// an `i64`.
    pub fn interpret_signed_checked(val: u64) -> (r: Option<i64>)
        ensures
            val < 0x8000_0000_0000_0000 ==> r == Some((-1 - val) as i64),
            val >= 0x8000_0000_0000_0000 ==> r is None,
    {
        if val <= i64::MAX as u64 {
            Some(-1 - (val as i64))
        } else {
            None
        }
    }

    /// Interprets the payload of a `Signed` event exactly.
    pub fn interpret_signed_wide(val: u64) -> (r: i128)
        ensures
            r == -1 - val,
    {
        -1 - (val as i128)
    }

    /// The `Unsigned` or `Signed` event for `val`.
    pub fn create_signed(val: i64) -> (r: Event)
        ensures
            event_int(r@) == Some(val as int),
    {
        if val < 0 {
            Event::Signed((-1 - val) as u64)
        } else {
            Event::Unsigned(val as u64)
        }
    }

    /// The `Unsigned` or `Signed` event for `val`, or `None` where `val` is outside the
    /// range of CBOR's basic integers, `-2^64 ..= 2^64 - 1`.
    pub fn create_signed_wide(val: i128) -> (r: Option<Event>)
        ensures
            -0x1_0000_0000_0000_0000 <= val < 0x1_0000_0000_0000_0000 ==> (r matches Some(e)
                && event_int(e@) == Some(val as int)),
            !(-0x1_0000_0000_0000_0000 <= val < 0x1_0000_0000_0000_0000) ==> r is None,
    {
        if val < 0 {
            if val >= -0x1_0000_0000_0000_0000i128 {
                Some(Event::Signed((-1 - val) as u64))
            } else {
                None
            }
        } else if val <= u64::MAX as i128 {
            Some(Event::Unsigned(val as u64))
        } else {
            None
        }
    }
}

/// What the next events must complete: one frame per open container or tag.
#[derive(Debug, Clone, Copy, PartialEq, Eq, Structural)]
pub enum Pending {
    /// An item of unknown length (string, array) that ends at a `Break`.
    Break,
    /// A definite array with this many items still to come.
    Array(u64),
    /// A definite map with this many pairs still to come; the flag says whether the next
    /// item is a key.
    SizedMap(u64, bool),
    /// A map of unknown length; the flag says whether the next item is a key.
    UnknownLengthMap(bool),
    /// A tag whose item is still to come.
    Tag,
}

/// The stack after one item other than `Break` has been read or written at its top.
pub open spec fn advance(stack: Seq<Pending>) -> Seq<Pending> {
    if stack.len() == 0 {
        stack
    } else {
        let rest = stack.drop_last();
        match stack.last() {
            Pending::Break => stack,
            Pending::Array(n) => if n <= 1 {
                rest
            } else {
                rest.push(Pending::Array((n - 1) as u64))
            },
            Pending::SizedMap(n, next_is_key) => if next_is_key {
                rest.push(Pending::SizedMap(n, false))
            } else if n <= 1 {
                rest
            } else {
                rest.push(Pending::SizedMap((n - 1) as u64, true))
            },
            Pending::UnknownLengthMap(next_is_key) => rest.push(
                Pending::UnknownLengthMap(!next_is_key),
            ),
            Pending::Tag => rest,
        }
    }
}

/// A `Break` may stand here: the innermost open item is of unknown length and, for a map,
/// the next item would be a key.
pub open spec fn break_allowed(stack: Seq<Pending>) -> bool {
    stack.len() > 0 && (stack.last() == Pending::Break || stack.last()
        == Pending::UnknownLengthMap(true))
}

/// The frame that an event opens, if any.
pub open spec fn opens(e: EventModel) -> Option<Pending> {
    match e {
        EventModel::UnknownLengthByteString => Some(Pending::Break),
        EventModel::UnknownLengthTextString => Some(Pending::Break),
        EventModel::UnknownLengthArray => Some(Pending::Break),
        EventModel::Array(n) => if n > 0 {
            Some(Pending::Array(n))
        } else {
            None
        },
        EventModel::SizedMap(n) => if n > 0 {
            Some(Pending::SizedMap(n, true))
        } else {
            None
        },
        EventModel::UnknownLengthMap => Some(Pending::UnknownLengthMap(true)),
        EventModel::Tag(_) => Some(Pending::Tag),
        _ => None,
    }
}

/// Whether `e` may come next: everything but a misplaced `Break`.
pub open spec fn accepts(stack: Seq<Pending>, e: EventModel) -> bool {
    e == EventModel::Break ==> break_allowed(stack)
}

/// The stack after `e`.
pub open spec fn stack_after(stack: Seq<Pending>, e: EventModel) -> Seq<Pending> {
    if e == EventModel::Break {
        stack.drop_last()
    } else {
        match opens(e) {
            Some(f) => advance(stack).push(f),
            None => advance(stack),
        }
    }
}

/// The shortest head of an item: initial byte with major type `major`, then `arg` in the
/// fewest bytes that hold it.
pub open spec fn head(major: u8, arg: u64) -> Seq<u8> {
    let m = major as int * 32;
    if arg <= 23 {
        seq![(m + arg) as u8]
    } else if arg <= 0xFF {
        seq![(m + 24) as u8] + be_bytes(arg as nat, 1)
    } else if arg <= 0xFFFF {
        seq![(m + 25) as u8] + be_bytes(arg as nat, 2)
    } else if arg <= 0xFFFF_FFFF {
        seq![(m + 26) as u8] + be_bytes(arg as nat, 4)
    } else {
        seq![(m + 27) as u8] + be_bytes(arg as nat, 8)
    }
}

/// The bytes that the encoder writes for `e`.
pub open spec fn encode_event(e: EventModel) -> Seq<u8> {
    match e {
        EventModel::Unsigned(n) => head(0, n),
        EventModel::Signed(n) => head(1, n),
        EventModel::ByteString(b) => head(2, b.len() as u64) + b,
        EventModel::UnknownLengthByteString => seq![0x5Fu8],
        EventModel::TextString(t) => head(3, encode_utf8(t).len() as u64) + encode_utf8(t),
        EventModel::UnknownLengthTextString => seq![0x7Fu8],
        EventModel::Array(n) => head(4, n),
        EventModel::UnknownLengthArray => seq![0x9Fu8],
        EventModel::SizedMap(n) => head(5, n),
        EventModel::UnknownLengthMap => seq![0xBFu8],
        EventModel::Tag(t) => head(6, t),
        EventModel::Simple(v) => head(7, v as u64),
        EventModel::Float(FloatBits::Half(h)) => seq![0xF9u8] + be_bytes(h as nat, 2),
        EventModel::Float(FloatBits::Single(f)) => seq![0xFAu8] + be_bytes(f as nat, 4),
        EventModel::Float(FloatBits::Double(d)) => seq![0xFBu8] + be_bytes(d as nat, 8),
        EventModel::Break => seq![0xFFu8],
    }
}

/// The length of an item's head for additional information `add` below 28.
pub open spec fn head_len(add: int) -> int {
    if add < 24 {
        1
    } else if add == 24 {
        2
    } else if add == 25 {
        3
    } else if add == 26 {
        5
    } else {
        9
    }
}

/// The argument of the head at the start of `input`, for additional information `add`
/// below 28.
pub open spec fn argument(input: Seq<u8>, add: int) -> u64 {
    if add < 24 {
        add as u64
    } else {
        be_value(input.subrange(1, head_len(add))) as u64
    }
}

/// What decoding one event from the start of `input` gives.
pub enum Parsed {
    /// This event, spelled by this many bytes.
    Event(EventModel, nat),
    /// The bytes break the grammar.
    Malformed,
    /// A text string held these bytes, which are not UTF-8.
    BadText(Seq<u8>),
    /// The input ends before the event does.
    Short,
}

/// Decoding one event of major type 7 (simple values, floats, break).
pub open spec fn parse_major7(stack: Seq<Pending>, input: Seq<u8>, add: int) -> Parsed {
    if add < 24 {
        Parsed::Event(EventModel::Simple(add as u8), 1)
    } else if add == 24 {
        if input.len() < 2 {
            Parsed::Short
        } else if input[1] < 24 {
            Parsed::Malformed
        } else {
            Parsed::Event(EventModel::Simple(input[1]), 2)
        }
    } else if add == 25 {
        if input.len() < 3 {
            Parsed::Short
        } else {
            Parsed::Event(
                EventModel::Float(FloatBits::Half(be_value(input.subrange(1, 3)) as u16)),
                3,
            )
        }
    } else if add == 26 {
        if input.len() < 5 {
            Parsed::Short
        } else {
            Parsed::Event(
                EventModel::Float(FloatBits::Single(be_value(input.subrange(1, 5)) as u32)),
                5,
            )
        }
    } else if add == 27 {
        if input.len() < 9 {
            Parsed::Short
        } else {
            Parsed::Event(
                EventModel::Float(FloatBits::Double(be_value(input.subrange(1, 9)) as u64)),
                9,
            )
        }
    } else if add < 31 {
        Parsed::Malformed
    } else if break_allowed(stack) {
        Parsed::Event(EventModel::Break, 1)
    } else {
        Parsed::Malformed
    }
}

/// Decoding one event of major type 0 to 6 whose head is complete and definite.
pub open spec fn parse_with_argument(input: Seq<u8>, major: int, add: int) -> Parsed {
    let h = head_len(add);
    let arg = argument(input, add);
    if major == 0 {
        Parsed::Event(EventModel::Unsigned(arg), h as nat)
    } else if major == 1 {
        Parsed::Event(EventModel::Signed(arg), h as nat)
    } else if major == 2 || major == 3 {
        if input.len() < h + arg {
            Parsed::Short
        } else {
            let body = input.subrange(h, h + arg);
            if major == 2 {
                Parsed::Event(EventModel::ByteString(body), (h + arg) as nat)
            } else if valid_utf8(body) {
                Parsed::Event(EventModel::TextString(decode_utf8(body)), (h + arg) as nat)
            } else {
                Parsed::BadText(body)
            }
        }
    } else if major == 4 {
        Parsed::Event(EventModel::Array(arg), h as nat)
    } else if major == 5 {
        Parsed::Event(EventModel::SizedMap(arg), h as nat)
    } else {
        Parsed::Event(EventModel::Tag(arg), h as nat)
    }
}

/// Decoding one event from the start of `input` with `stack` pending.
pub open spec fn parse_event(stack: Seq<Pending>, input: Seq<u8>) -> Parsed {
    if input.len() == 0 {
        Parsed::Short
    } else {
        let major = input[0] as int / 32;
        let add = input[0] as int % 32;
        if major == 7 {
            parse_major7(stack, input, add)
        } else if add == 31 {
            if major == 2 {
                Parsed::Event(EventModel::UnknownLengthByteString, 1)
            } else if major == 3 {
                Parsed::Event(EventModel::UnknownLengthTextString, 1)
            } else if major == 4 {
                Parsed::Event(EventModel::UnknownLengthArray, 1)
            } else if major == 5 {
                Parsed::Event(EventModel::UnknownLengthMap, 1)
            } else {
                Parsed::Malformed
            }
        } else if add >= 28 {
            Parsed::Malformed
        } else if input.len() < head_len(add) {
            Parsed::Short
        } else {
            parse_with_argument(input, major, add)
        }
    }
}

/// How many bytes the event that starts `input` needs, as far as `input` tells: one for
/// the initial byte, then the whole head, then (for a string of known length) the body.
pub open spec fn needed(input: Seq<u8>) -> int {
    if input.len() == 0 {
        1
    } else {
        let major = input[0] as int / 32;
        let add = input[0] as int % 32;
        if major == 7 {
            if 24 <= add <= 27 {
                head_len(add)
            } else {
                1
            }
        } else if add >= 28 {
            1
        } else if input.len() < head_len(add) {
            head_len(add)
        } else if major == 2 || major == 3 {
            head_len(add) + argument(input, add)
        } else {
            head_len(add)
        }
    }
}

/// How many bytes are missing before the event that starts `input` is complete.
pub open spec fn shortfall(input: Seq<u8>) -> nat {
    if needed(input) > input.len() {
        (needed(input) - input.len()) as nat
    } else {
        0
    }
}

/// The decoder reports `Short` exactly where bytes are missing.
pub proof fn lemma_short_iff_shortfall(stack: Seq<Pending>, input: Seq<u8>)
    ensures
        (parse_event(stack, input) is Short) == (shortfall(input) > 0),
{
}

/// A decoded event takes at least one byte and no more than there are.
pub proof fn lemma_parse_event_size(stack: Seq<Pending>, input: Seq<u8>)
    ensures
        parse_event(stack, input) matches Parsed::Event(_, k) ==> 1 <= k <= input.len(),
{
}

fn advance_stack(stack: &mut Vec<Pending>)
    ensures
        final(stack)@ == advance(old(stack)@),
{
    let n = stack.len();
    if n == 0 {
        return ;
    }
    let top = stack[n - 1];
    match top {
        Pending::Break => {},
        Pending::Array(k) => {
            let _ = stack.pop();
            if k > 1 {
                stack.push(Pending::Array(k - 1));
            }
        },
        Pending::SizedMap(k, next_is_key) => {
            let _ = stack.pop();
            if next_is_key {
                stack.push(Pending::SizedMap(k, false));
            } else if k > 1 {
                stack.push(Pending::SizedMap(k - 1, true));
            }
        },
        Pending::UnknownLengthMap(next_is_key) => {
            let _ = stack.pop();
            stack.push(Pending::UnknownLengthMap(!next_is_key));
        },
        Pending::Tag => {
            let _ = stack.pop();
        },
    }
}

fn break_allowed_now(stack: &Vec<Pending>) -> (r: bool)
    ensures
        r == break_allowed(stack@),
{
    let n = stack.len();
    if n == 0 {
        false
    } else {
        match stack[n - 1] {
            Pending::Break => true,
            Pending::UnknownLengthMap(next_is_key) => next_is_key,
            _ => false,
        }
    }
}

fn opened_frame(e: &Event) -> (r: Option<Pending>)
    ensures
        r == opens(e@),
{
    match e {
        Event::UnknownLengthByteString => Some(Pending::Break),
        Event::UnknownLengthTextString => Some(Pending::Break),
        Event::UnknownLengthArray => Some(Pending::Break),
        Event::Array(n) => if *n > 0 {
            Some(Pending::Array(*n))
        } else {
            None
        },
        Event::SizedMap(n) => if *n > 0 {
            Some(Pending::SizedMap(*n, true))
        } else {
            None
        },
        Event::UnknownLengthMap => Some(Pending::UnknownLengthMap(true)),
        Event::Tag(_) => Some(Pending::Tag),
        _ => None,
    }
}

/// Updates `stack` for the event `e`, which it accepts.
fn apply_event(stack: &mut Vec<Pending>, e: &Event)
    requires
        accepts(old(stack)@, e@),
    ensures
        final(stack)@ == stack_after(old(stack)@, e@),
{
    match e {
        Event::Break => {
            let _ = stack.pop();
        },
        _ => {
            advance_stack(stack);
            match opened_frame(e) {
                Some(f) => stack.push(f),
                None => {},
            }
        },
    }
}

/// Appends the shortest head for `major` and `arg` to `out`.
fn write_head(out: &mut Vec<u8>, major: u8, arg: u64)
    requires
        major < 8,
    ensures
        final(out)@ == old(out)@ + head(major, arg),
{
    let m: u8 = major * 32;
    if arg <= 23 {
        out.push(m + arg as u8);
        assert(final(out)@ =~= old(out)@ + head(major, arg));
    } else if arg <= 0xFF {
        out.push(m + 24);
        push_be(out, arg, 1);
        assert(final(out)@ =~= old(out)@ + head(major, arg));
    } else if arg <= 0xFFFF {
        out.push(m + 25);
        push_be(out, arg, 2);
        assert(final(out)@ =~= old(out)@ + head(major, arg));
    } else if arg <= 0xFFFF_FFFF {
        out.push(m + 26);
        push_be(out, arg, 4);
        assert(final(out)@ =~= old(out)@ + head(major, arg));
    } else {
        out.push(m + 27);
        push_be(out, arg, 8);
        assert(final(out)@ =~= old(out)@ + head(major, arg));
    }
}

/// A streaming encoder for the CBOR basic data model, writing to a byte vector.
#[derive(Debug, Clone)]
pub struct Encoder {
    dest: Vec<u8>,
    pending: Vec<Pending>,
}

impl Encoder {
    /// The bytes written so far, after what `dest` held at the start.
    pub closed spec fn written(&self) -> Seq<u8> {
        self.dest@
    }

    /// The open containers and tags.
    pub closed spec fn pending(&self) -> Seq<Pending> {
        self.pending@
    }

    /// An encoder that appends to `dest`.
    pub fn new(dest: Vec<u8>) -> (r: Self)
        ensures
            r.written() == dest@,
            r.pending() == Seq::<Pending>::empty(),
    {
        Encoder { dest, pending: Vec::new() }
    }

    /// Writes one event: the shortest encoding of integers and lengths, floats in the width
    /// they carry. A `Break` where no item of unknown length can end is refused.
    pub fn feed_event(&mut self, event: Event) -> (r: Result<(), EncodeError>)
        ensures
            accepts(old(self).pending(), event@) ==> r is Ok && final(self).written()
                == old(self).written() + encode_event(event@) && final(self).pending()
                == stack_after(old(self).pending(), event@),
            !accepts(old(self).pending(), event@) ==> r == Err::<(), EncodeError>(
                EncodeError::InvalidBreak,
            ) && final(self).written() == old(self).written() && final(self).pending()
                == old(self).pending(),
    {
        if let Event::Break = event {
            if !break_allowed_now(&self.pending) {
                return Err(EncodeError::InvalidBreak);
            }
        }
        apply_event(&mut self.pending, &event);
        match event {
            Event::Unsigned(n) => write_head(&mut self.dest, 0, n),
            Event::Signed(n) => write_head(&mut self.dest, 1, n),
            Event::ByteString(bytes) => {
                write_head(&mut self.dest, 2, bytes.len() as u64);
                self.dest.extend_from_slice(bytes.as_slice());
            },
            Event::UnknownLengthByteString => self.dest.push(0x5F),
            Event::TextString(text) => {
                let bytes = text.as_str().as_bytes();
                write_head(&mut self.dest, 3, bytes.len() as u64);
                self.dest.extend_from_slice(bytes);
            },
            Event::UnknownLengthTextString => self.dest.push(0x7F),
            Event::Array(n) => write_head(&mut self.dest, 4, n),
            Event::UnknownLengthArray => self.dest.push(0x9F),
            Event::SizedMap(n) => write_head(&mut self.dest, 5, n),
            Event::UnknownLengthMap => self.dest.push(0xBF),
            Event::Tag(t) => write_head(&mut self.dest, 6, t),
            Event::Simple(v) => write_head(&mut self.dest, 7, v as u64),
            Event::Float(FloatBits::Half(h)) => {
                self.dest.push(0xF9);
                push_be(&mut self.dest, h as u64, 2);
            },
            Event::Float(FloatBits::Single(f)) => {
                self.dest.push(0xFA);
                push_be(&mut self.dest, f as u64, 4);
            },
            Event::Float(FloatBits::Double(d)) => {
                self.dest.push(0xFB);
                push_be(&mut self.dest, d, 8);
            },
            Event::Break => self.dest.push(0xFF),
        }
        assert(self.dest@ =~= old(self).dest@ + encode_event(event@));
        Ok(())
    }

    /// Whether every container and tag opened so far is complete.
    pub fn ready_to_finish(&self) -> (r: bool)
        ensures
            r == (self.pending().len() == 0),
    {
        self.pending.len() == 0
    }

    /// The destination, with everything written to it.
    pub fn into_inner(self) -> (r: Vec<u8>)
        ensures
            r@ == self.written(),
    {
        self.dest
    }

    /// Hands out what has been written so far and goes on with an empty destination, so
    /// that the bytes can be sent as they are produced.
    pub fn take_output(&mut self) -> (r: Vec<u8>)
        ensures
            r@ == old(self).written(),
            final(self).written() == Seq::<u8>::empty(),
            final(self).pending() == old(self).pending(),
    {
        let mut out: Vec<u8> = Vec::new();
        std::mem::swap(&mut out, &mut self.dest);
        out
    }
}

/// Relies on `String::from_utf8`: it accepts exactly the byte sequences that are valid
/// UTF-8, and the string it then returns holds the characters those bytes encode; on
/// failure the error hands the bytes back unchanged.
#[verifier::external_body]
fn utf8_to_string(bytes: Vec<u8>) -> (r: Result<String, Vec<u8>>)
    ensures
        match r {
            Ok(s) => valid_utf8(bytes@) && s@ == decode_utf8(bytes@),
            Err(b) => !valid_utf8(bytes@) && b@ == bytes@,
        },
{
    match String::from_utf8(bytes) {
        Ok(s) => Ok(s),
        Err(e) => Err(e.into_bytes()),
    }
}

/// A copy of `v[start..end]`.
pub(crate) fn copy_range(v: &Vec<u8>, start: usize, end: usize) -> (r: Vec<u8>)
    requires
        start <= end <= v@.len(),
    ensures
        r@ == v@.subrange(start as int, end as int),
{
    let mut r: Vec<u8> = Vec::with_capacity(end - start);
    let mut i: usize = start;
    while i < end
        invariant
            start <= i <= end <= v@.len(),
            r@ == v@.subrange(start as int, i as int),
        decreases end - i,
    {
        r.push(v[i]);
        i = i + 1;
        assert(r@ =~= v@.subrange(start as int, i as int));
    }
    r
}

/// The result of one attempt to decode an event from what is there.
enum Attempt {
    Got(Event, usize),
    Failed(DecodeError),
    Short,
}

spec fn attempt_matches(a: Attempt, p: Parsed) -> bool {
    match p {
        Parsed::Event(e, k) => match a {
            Attempt::Got(ev, n) => ev@ == e && n == k,
            _ => false,
        },
        Parsed::Malformed => a == Attempt::Failed(DecodeError::Malformed),
        Parsed::BadText(b) => match a {
            Attempt::Failed(DecodeError::InvalidUtf8(v)) => v@ == b,
            _ => false,
        },
        Parsed::Short => a == Attempt::Short,
    }
}

/// A streaming decoder for the CBOR basic data model.
///
/// It reads from a byte source that it owns. Bytes are drawn from the source into an
/// internal buffer as the event being decoded needs them, and leave the buffer when the
/// event is complete.
#[derive(Debug)]
pub struct Decoder {
    input: Input,
    pending: Vec<Pending>,
}

/// The decoder's byte source and its internal buffer.
#[derive(Debug)]
struct Input {
    bytes: Vec<u8>,
    /// Bytes taken by the events decoded so far.
    pos: usize,
    /// Bytes after `pos` drawn into the buffer by an event that did not complete.
    buffered: usize,
}

impl Input {
    #[verifier::type_invariant]
    spec fn inv(self) -> bool {
        self.pos + self.buffered <= self.bytes@.len()
    }
}

impl Decoder {

    /// The bytes not yet taken by a decoded event: the internal buffer, then the rest of the
    /// source.
    pub closed spec fn remaining(&self) -> Seq<u8> {
        self.input.bytes@.subrange(self.input.pos as int, self.input.bytes@.len() as int)
    }

    /// How many bytes wait in the internal buffer.
    pub closed spec fn buffered(&self) -> nat {
        self.input.buffered as nat
    }

    /// The open containers and tags.
    pub closed spec fn pending(&self) -> Seq<Pending> {
        self.pending@
    }

    /// A decoder that reads `source` from its start.
    pub fn new(source: Vec<u8>) -> (r: Self)
        ensures
            r.remaining() == source@,
            r.buffered() == 0,
            r.pending() == Seq::<Pending>::empty(),
    {
        let ghost bytes = source@;
        let r = Decoder { input: Input { bytes: source, pos: 0, buffered: 0 }, pending: Vec::new() };
        assert(r.remaining() =~= bytes);
        r
    }

    fn try_next_event(&self) -> (r: Attempt)
        ensures
            attempt_matches(r, parse_event(self.pending(), self.remaining())),
    {
        proof {
            use_type_invariant(&self.input);
            lemma_pow256_values();
        }
        let ghost input = self.remaining();
        let len = self.input.bytes.len();
        let start = self.input.pos;
        if start >= len {
            return Attempt::Short;
        }
        let avail = len - start;
        let initial = self.input.bytes[start];
        assert(input[0] == initial);
        let major = initial / 32;
        let additional = initial % 32;
        if major == 7 {
            if additional < 24 {
                Attempt::Got(Event::Simple(additional), 1)
            } else if additional == 24 {
                if avail < 2 {
                    return Attempt::Short;
                }
                let b = self.input.bytes[start + 1];
                assert(input[1] == b);
                if b < 24 {
                    Attempt::Failed(DecodeError::Malformed)
                } else {
                    Attempt::Got(Event::Simple(b), 2)
                }
            } else if additional == 25 {
                if avail < 3 {
                    return Attempt::Short;
                }
                let v = read_be(self.input.bytes.as_slice(), start + 1, 2);
                proof {
                    assert(input.subrange(1, 3) =~= self.input.bytes@.subrange(start + 1, start + 3));
                    lemma_be_value_bound(input.subrange(1, 3));
                }
                Attempt::Got(Event::Float(FloatBits::Half(v as u16)), 3)
            } else if additional == 26 {
                if avail < 5 {
                    return Attempt::Short;
                }
                let v = read_be(self.input.bytes.as_slice(), start + 1, 4);
                proof {
                    assert(input.subrange(1, 5) =~= self.input.bytes@.subrange(start + 1, start + 5));
                    lemma_be_value_bound(input.subrange(1, 5));
                }
                Attempt::Got(Event::Float(FloatBits::Single(v as u32)), 5)
            } else if additional == 27 {
                if avail < 9 {
                    return Attempt::Short;
                }
                let v = read_be(self.input.bytes.as_slice(), start + 1, 8);
                proof {
                    assert(input.subrange(1, 9) =~= self.input.bytes@.subrange(start + 1, start + 9));
                }
                Attempt::Got(Event::Float(FloatBits::Double(v)), 9)
            } else if additional < 31 {
                Attempt::Failed(DecodeError::Malformed)
            } else if break_allowed_now(&self.pending) {
                Attempt::Got(Event::Break, 1)
            } else {
                Attempt::Failed(DecodeError::Malformed)
            }
        } else if additional == 31 {
            if major == 2 {
                Attempt::Got(Event::UnknownLengthByteString, 1)
            } else if major == 3 {
                Attempt::Got(Event::UnknownLengthTextString, 1)
            } else if major == 4 {
                Attempt::Got(Event::UnknownLengthArray, 1)
            } else if major == 5 {
                Attempt::Got(Event::UnknownLengthMap, 1)
            } else {
                Attempt::Failed(DecodeError::Malformed)
            }
        } else if additional >= 28 {
            Attempt::Failed(DecodeError::Malformed)
        } else {
            let h: usize = if additional < 24 {
                1
            } else if additional == 24 {
                2
            } else if additional == 25 {
                3
            } else if additional == 26 {
                5
            } else {
                9
            };
            if avail < h {
                return Attempt::Short;
            }
            let arg: u64 = if additional < 24 {
                additional as u64
            } else {
                let v = read_be(self.input.bytes.as_slice(), start + 1, h - 1);
                proof {
                    assert(input.subrange(1, h as int) =~= self.input.bytes@.subrange(
                        start + 1,
                        start + h,
                    ));
                    lemma_be_value_bound(input.subrange(1, h as int));
                }
                v
            };
            assert(arg == argument(input, additional as int));
            if major == 0 {
                Attempt::Got(Event::Unsigned(arg), h)
            } else if major == 1 {
                Attempt::Got(Event::Signed(arg), h)
            } else if major == 2 || major == 3 {
                if ((avail - h) as u64) < arg {
                    return Attempt::Short;
                }
                let size = h + arg as usize;
                let body = copy_range(&self.input.bytes, start + h, start + size);
                assert(body@ =~= input.subrange(h as int, size as int));
                if major == 2 {
                    Attempt::Got(Event::ByteString(body), size)
                } else {
                    match utf8_to_string(body) {
                        Ok(text) => Attempt::Got(Event::TextString(text), size),
                        Err(bytes) => Attempt::Failed(DecodeError::InvalidUtf8(bytes)),
                    }
                }
            } else if major == 4 {
                Attempt::Got(Event::Array(arg), h)
            } else if major == 5 {
                Attempt::Got(Event::SizedMap(arg), h)
            } else {
                Attempt::Got(Event::Tag(arg), h)
            }
        }
    }

    /// Decodes the next event.
    ///
    /// On success the event's bytes leave the decoder and the pending stack follows the
    /// event. `Insufficient` says that the source ended inside the event; then, as after
    /// any other error, the bytes that were examined stay in the internal buffer.
    pub fn next_event(&mut self) -> (r: Result<Event, DecodeError>)
        ensures
            match parse_event(old(self).pending(), old(self).remaining()) {
                Parsed::Event(e, k) => {
                    &&& r matches Ok(ev) && ev@ == e
                    &&& final(self).pending() == stack_after(old(self).pending(), e)
                    &&& final(self).remaining() == old(self).remaining().skip(k as int)
                    &&& final(self).buffered() == 0
                },
                Parsed::Malformed => {
                    &&& r == Err::<Event, DecodeError>(DecodeError::Malformed)
                    &&& final(self).kept_after_error(*old(self))
                },
                Parsed::BadText(b) => {
                    &&& r matches Err(DecodeError::InvalidUtf8(v)) && v@ == b
                    &&& final(self).kept_after_error(*old(self))
                },
                Parsed::Short => {
                    &&& r == Err::<Event, DecodeError>(DecodeError::Insufficient)
                    &&& final(self).kept_after_error(*old(self))
                },
            },
    {
        proof {
            use_type_invariant(&self.input);
        }
        let attempt = self.try_next_event();
        let len = self.input.bytes.len();
        match attempt {
            Attempt::Got(event, size) => {
                apply_event(&mut self.pending, &event);
                self.input.buffered = 0;
                self.input.pos = self.input.pos + size;
                assert(self.remaining() =~= old(self).remaining().skip(size as int));
                Ok(event)
            },
            Attempt::Failed(e) => {
                self.input.buffered = len - self.input.pos;
                Err(e)
            },
            Attempt::Short => {
                self.input.buffered = len - self.input.pos;
                Err(DecodeError::Insufficient)
            },
        }
    }

    /// Appends bytes that the source has produced since, so that a decoding that ended in
    /// `Insufficient` can go on where it stopped.
    pub fn feed(&mut self, bytes: &[u8])
        ensures
            final(self).remaining() == old(self).remaining() + bytes@,
            final(self).pending() == old(self).pending(),
            final(self).buffered() == old(self).buffered(),
    {
        let mut input = Input { bytes: Vec::new(), pos: 0, buffered: 0 };
        std::mem::swap(&mut self.input, &mut input);
        proof {
            use_type_invariant(&input);
        }
        let Input { bytes: mut source, pos, buffered } = input;
        let ghost before = source@;
        source.extend_from_slice(bytes);
        assert(source@ =~= before + bytes@);
        self.input = Input { bytes: source, pos, buffered };
        assert(self.remaining() =~= old(self).remaining() + bytes@);
    }

    /// How many bytes no decoded event has taken yet.
    pub(crate) fn remaining_len(&self) -> (r: usize)
        ensures
            r == self.remaining().len(),
    {
        proof {
            use_type_invariant(&self.input);
        }
        self.input.bytes.len() - self.input.pos
    }

    /// How many bytes are missing before the next event is complete: zero where it is
    /// complete (or malformed), else exactly the bytes that `feed` must still supply.
    pub fn shortfall(&self) -> (r: u64)
        ensures
            r == shortfall(self.remaining()),
            (r > 0) == (parse_event(self.pending(), self.remaining()) is Short),
    {
        proof {
            use_type_invariant(&self.input);
            lemma_short_iff_shortfall(self.pending(), self.remaining());
            lemma_pow256_values();
        }
        let ghost input = self.remaining();
        let len = self.input.bytes.len();
        let start = self.input.pos;
        if start >= len {
            return 1;
        }
        let avail = len - start;
        let initial = self.input.bytes[start];
        assert(input[0] == initial);
        let major = initial / 32;
        let additional = initial % 32;
        let h: usize = if additional < 24 {
            1
        } else if additional == 24 {
            2
        } else if additional == 25 {
            3
        } else if additional == 26 {
            5
        } else {
            9
        };
        if major == 7 && !(24 <= additional && additional <= 27) {
            return 0;
        }
        if major != 7 && additional >= 28 {
            return 0;
        }
        if avail < h {
            return (h - avail) as u64;
        }
        if major == 2 || major == 3 {
            let arg: u64 = if additional < 24 {
                additional as u64
            } else {
                let v = read_be(self.input.bytes.as_slice(), start + 1, h - 1);
                proof {
                    assert(input.subrange(1, h as int) =~= self.input.bytes@.subrange(
                        start + 1,
                        start + h,
                    ));
                    lemma_be_value_bound(input.subrange(1, h as int));
                }
                v
            };
            assert(arg == argument(input, additional as int));
            let body_avail = (avail - h) as u64;
            if body_avail < arg {
                return arg - body_avail;
            }
        }
        0
    }

    /// After a failed `next_event`: nothing was taken, the stack is as it was, and every
    /// remaining byte was drawn into the buffer.
    pub open spec fn kept_after_error(&self, before: Decoder) -> bool {
        &&& self.pending() == before.pending()
        &&& self.remaining() == before.remaining()
        &&& self.buffered() == before.remaining().len()
    }

    /// Whether the decoding can end here: every container and tag is complete and no bytes
    /// of an unfinished event wait in the buffer.
    pub fn ready_to_finish(&self) -> (r: bool)
        ensures
            r == (self.pending().len() == 0 && self.buffered() == 0),
    {
        self.pending.len() == 0 && self.input.buffered == 0
    }

    /// Ends the decoding, handing back what the source holds after the last event; or
    /// `Insufficient` where the decoding is not [ready to finish](Self::ready_to_finish).
    pub fn finish(self) -> (r: Result<Vec<u8>, DecodeError>)
        ensures
            self.pending().len() == 0 && self.buffered() == 0 ==> (r matches Ok(rest) && rest@
                == self.remaining()),
            !(self.pending().len() == 0 && self.buffered() == 0) ==> r == Err::<
                Vec<u8>,
                DecodeError,
            >(DecodeError::Insufficient),
    {
        if self.ready_to_finish() {
            Ok(self.force_finish())
        } else {
            Err(DecodeError::Insufficient)
        }
    }

    /// Ends the decoding whatever its state, handing back the internal buffer followed by
    /// the rest of the source: the bytes that no decoded event took.
    pub fn force_finish(self) -> (r: Vec<u8>)
        ensures
            r@ == self.remaining(),
    {
        proof {
            use_type_invariant(&self.input);
        }
        copy_range(&self.input.bytes, self.input.pos, self.input.bytes.len())
    }
}

} // verus!
