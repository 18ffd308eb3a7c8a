//! Laws that relate the encoders and decoders: what is written decodes back to what was
//! written, and misplaced breaks are refused.
use crate::basic::streaming::{
    accepts, advance, argument, encode_event, head, head_len, lemma_parse_event_size, parse_event,
    stack_after,
    EventModel, FloatBits, Parsed, Pending,
};
use crate::basic::tree::{
    item_bytes, items_bytes, pairs_bytes, parse_array, parse_byte_chunks, parse_map,
    parse_map_value, parse_open_array, parse_open_map, parse_open_map_value, parse_text_chunks,
    parse_tree, ItemModel, TreeParsed,
};
use crate::read_ints::{be_bytes, lemma_be_round_trip, lemma_pow256_values};
use vstd::prelude::*;
use vstd::utf8::{encode_utf8, encode_utf8_decode_utf8, encode_utf8_valid_utf8};

verus! {

/// Byte and text payloads short enough for their length to stand in a head.
pub open spec fn event_fits(e: EventModel) -> bool {
    match e {
        EventModel::ByteString(b) => b.len() < 0x1_0000_0000_0000_0000,
        EventModel::TextString(t) => encode_utf8(t).len() < 0x1_0000_0000_0000_0000,
        _ => true,
    }
}

/// The bytes the encoder writes for `es`, fed in order with `stack` pending, and the stack
/// after them; `None` where it refuses one of them.
pub open spec fn encode_events(stack: Seq<Pending>, es: Seq<EventModel>) -> Option<
    (Seq<u8>, Seq<Pending>),
>
    decreases es.len(),
{
    if es.len() == 0 {
        Some((Seq::empty(), stack))
    } else if !accepts(stack, es[0]) {
        None
    } else {
        match encode_events(stack_after(stack, es[0]), es.drop_first()) {
            Some((bytes, s)) => Some((encode_event(es[0]) + bytes, s)),
            None => None,
        }
    }
}

/// The first `n` events that the decoder reads from `input` with `stack` pending, the bytes
/// left after them and the stack after them; `None` where one of the reads fails.
pub open spec fn decode_events(stack: Seq<Pending>, input: Seq<u8>, n: nat) -> Option<
    (Seq<EventModel>, Seq<u8>, Seq<Pending>),
>
    decreases n,
{
    if n == 0 {
        Some((Seq::empty(), input, stack))
    } else {
        match parse_event(stack, input) {
            Parsed::Event(e, k) => match decode_events(
                stack_after(stack, e),
                input.skip(k as int),
                (n - 1) as nat,
            ) {
                Some((es, rest, s)) => Some((seq![e] + es, rest, s)),
                None => None,
            },
            _ => None,
        }
    }
}

proof fn lemma_head(major: u8, arg: u64, rest: Seq<u8>)
    requires
        major < 7,
    ensures
        ({
            let input = head(major, arg) + rest;
            let add = input[0] as int % 32;
            &&& input[0] as int / 32 == major
            &&& add < 28
            &&& head_len(add) == head(major, arg).len()
            &&& argument(input, add) == arg
            &&& (arg <= 23 <==> add < 24)
        }),
{
    lemma_pow256_values();
    let input = head(major, arg) + rest;
    let m = major as int * 32;
    if arg <= 23 {
    } else if arg <= 0xFF {
        lemma_be_round_trip(arg as nat, 1);
        assert(input.subrange(1, 2) =~= be_bytes(arg as nat, 1));
    } else if arg <= 0xFFFF {
        lemma_be_round_trip(arg as nat, 2);
        assert(input.subrange(1, 3) =~= be_bytes(arg as nat, 2));
    } else if arg <= 0xFFFF_FFFF {
        lemma_be_round_trip(arg as nat, 4);
        assert(input.subrange(1, 5) =~= be_bytes(arg as nat, 4));
    } else {
        lemma_be_round_trip(arg as nat, 8);
        assert(input.subrange(1, 9) =~= be_bytes(arg as nat, 8));
    }
}

/// Decoding what the encoder wrote for one accepted event gives that event back, and takes
/// exactly the bytes written for it, whatever follows them.
pub proof fn lemma_event_round_trip(stack: Seq<Pending>, e: EventModel, rest: Seq<u8>)
    requires
        accepts(stack, e),
        event_fits(e),
    ensures
        parse_event(stack, encode_event(e) + rest) == Parsed::Event(e, encode_event(e).len()),
{
    lemma_pow256_values();
    let input = encode_event(e) + rest;
    match e {
        EventModel::Unsigned(n) => lemma_head(0, n, rest),
        EventModel::Signed(n) => lemma_head(1, n, rest),
        EventModel::ByteString(b) => {
            let h = head(2, b.len() as u64);
            lemma_head(2, b.len() as u64, b + rest);
            assert(input =~= h + (b + rest));
            assert(input.subrange(h.len() as int, (h.len() + b.len()) as int) =~= b);
        },
        EventModel::TextString(t) => {
            let bytes = encode_utf8(t);
            let h = head(3, bytes.len() as u64);
            lemma_head(3, bytes.len() as u64, bytes + rest);
            assert(input =~= h + (bytes + rest));
            assert(input.subrange(h.len() as int, (h.len() + bytes.len()) as int) =~= bytes);
            encode_utf8_valid_utf8(t);
            encode_utf8_decode_utf8(t);
        },
        EventModel::Array(n) => lemma_head(4, n, rest),
        EventModel::SizedMap(n) => lemma_head(5, n, rest),
        EventModel::Tag(t) => lemma_head(6, t, rest),
        EventModel::Simple(v) => {
            if v >= 24 {
                lemma_be_round_trip(v as nat, 1);
            }
        },
        EventModel::Float(FloatBits::Half(h)) => {
            lemma_be_round_trip(h as nat, 2);
            assert(input.subrange(1, 3) =~= be_bytes(h as nat, 2));
        },
        EventModel::Float(FloatBits::Single(f)) => {
            lemma_be_round_trip(f as nat, 4);
            assert(input.subrange(1, 5) =~= be_bytes(f as nat, 4));
        },
        EventModel::Float(FloatBits::Double(d)) => {
            lemma_be_round_trip(d as nat, 8);
            assert(input.subrange(1, 9) =~= be_bytes(d as nat, 8));
        },
        _ => {},
    }
}

/// Decoding the bytes that the encoder wrote for a sequence of events that it accepted
/// gives back exactly that sequence, takes every byte, and ends with the same pending
/// stack as the encoder.
pub proof fn lemma_stream_round_trip(stack: Seq<Pending>, es: Seq<EventModel>)
    requires
        encode_events(stack, es) is Some,
        forall|i: int| 0 <= i < es.len() ==> event_fits(#[trigger] es[i]),
    ensures
        ({
            let (bytes, end) = encode_events(stack, es)->Some_0;
            decode_events(stack, bytes, es.len()) == Some((es, Seq::<u8>::empty(), end))
        }),
    decreases es.len(),
{
    if es.len() > 0 {
        let e = es[0];
        let tail = es.drop_first();
        assert forall|i: int| 0 <= i < tail.len() implies event_fits(#[trigger] tail[i]) by {
            assert(tail[i] == es[i + 1]);
        }
        assert(event_fits(es[0]));
        lemma_stream_round_trip(stack_after(stack, e), tail);
        let (rest_bytes, end) = encode_events(stack_after(stack, e), tail)->Some_0;
        let bytes = encode_event(e) + rest_bytes;
        lemma_event_round_trip(stack, e, rest_bytes);
        assert(bytes.skip(encode_event(e).len() as int) =~= rest_bytes);
        assert(seq![e] + tail =~= es);
    }
}

/// A `Break` where no item of unknown length is open at the top of the stack (or a map of
/// unknown length waits for a value) is refused by the encoder and read as malformed by the
/// decoder, whatever follows it.
pub proof fn lemma_stray_break(stack: Seq<Pending>, rest: Seq<u8>)
    requires
        stack.len() == 0 || (stack.last() != Pending::Break && stack.last()
            != Pending::UnknownLengthMap(true)),
    ensures
        !accepts(stack, EventModel::Break),
        parse_event(stack, seq![0xFFu8] + rest) == Parsed::Malformed,
{
}

/// An event that is a complete item by itself: no open container, tag or break.
pub open spec fn is_scalar(e: EventModel) -> bool {
    match e {
        EventModel::Unsigned(_) => true,
        EventModel::Signed(_) => true,
        EventModel::ByteString(_) => true,
        EventModel::TextString(_) => true,
        EventModel::Simple(_) => true,
        EventModel::Float(_) => true,
        EventModel::Array(n) => n == 0,
        EventModel::SizedMap(n) => n == 0,
        _ => false,
    }
}

/// After a map of unknown length has been opened and `es.len()` complete items read, the
/// map waits for a key exactly when that number is even.
pub proof fn lemma_unknown_length_map_parity(stack: Seq<Pending>, es: Seq<EventModel>)
    requires
        forall|i: int| 0 <= i < es.len() ==> is_scalar(#[trigger] es[i]),
    ensures
        encode_events(stack, seq![EventModel::UnknownLengthMap] + es) matches Some((_, s))
            && s == advance(stack).push(Pending::UnknownLengthMap(es.len() % 2 == 0)),
    decreases es.len(),
{
    let all = seq![EventModel::UnknownLengthMap] + es;
    assert(all.drop_first() =~= es);
    let opened = advance(stack).push(Pending::UnknownLengthMap(true));
    assert(stack_after(stack, EventModel::UnknownLengthMap) == opened);
    lemma_scalars_toggle(opened, true, es);
    assert(opened.drop_last() =~= advance(stack));
}

proof fn lemma_scalars_toggle(stack: Seq<Pending>, key: bool, es: Seq<EventModel>)
    requires
        stack.len() > 0,
        stack.last() == Pending::UnknownLengthMap(key),
        forall|i: int| 0 <= i < es.len() ==> is_scalar(#[trigger] es[i]),
    ensures
        encode_events(stack, es) matches Some((_, s)) && s == stack.drop_last().push(
            Pending::UnknownLengthMap(key == (es.len() % 2 == 0)),
        ),
    decreases es.len(),
{
    if es.len() == 0 {
        assert(stack.drop_last().push(Pending::UnknownLengthMap(key)) =~= stack);
    } else {
        let next = stack.drop_last().push(Pending::UnknownLengthMap(!key));
        assert(is_scalar(es[0]));
        assert(stack_after(stack, es[0]) == next);
        let tail = es.drop_first();
        assert forall|i: int| 0 <= i < tail.len() implies is_scalar(#[trigger] tail[i]) by {
            assert(tail[i] == es[i + 1]);
        }
        lemma_scalars_toggle(next, !key, tail);
        assert(next.drop_last() =~= stack.drop_last());
    }
}

/// A map with an odd number of items read since it opened (its top frame waits for a
/// value) is not complete: the stack is not empty, the encoder refuses a `Break` there and
/// the decoder reads one as malformed.
pub proof fn lemma_odd_map_break(stack: Seq<Pending>, rest: Seq<u8>)
    requires
        stack.len() > 0,
        stack.last() == Pending::UnknownLengthMap(false) || stack.last() matches Pending::SizedMap(
            _,
            false,
        ),
    ensures
        stack.len() != 0,
        !accepts(stack, EventModel::Break),
        parse_event(stack, seq![0xFFu8] + rest) == Parsed::Malformed,
{
}

/// Every payload of the item, and every array and map, is short enough for its length to
/// stand in a head.
pub open spec fn item_fits(m: ItemModel) -> bool
    decreases m,
{
    match m {
        ItemModel::ByteString(b) => b.len() < 0x1_0000_0000_0000_0000,
        ItemModel::TextString(t) => encode_utf8(t).len() < 0x1_0000_0000_0000_0000,
        ItemModel::Array(s) => s.len() < 0x1_0000_0000_0000_0000 && forall|i: int|
            0 <= i < s.len() ==> item_fits(#[trigger] s[i]),
        ItemModel::Dict(s) => s.len() < 0x1_0000_0000_0000_0000 && forall|i: int|
            0 <= i < s.len() ==> item_fits(#[trigger] s[i].0) && item_fits(s[i].1),
        ItemModel::Tag(_, b) => item_fits(*b),
        _ => true,
    }
}

proof fn lemma_items_bytes_cons(m: ItemModel, ms: Seq<ItemModel>)
    ensures
        items_bytes(seq![m] + ms) == item_bytes(m) + items_bytes(ms),
    decreases ms.len(),
{
    let all = seq![m] + ms;
    if ms.len() == 0 {
        assert(all.drop_last() =~= Seq::<ItemModel>::empty());
        assert(all.last() == m);
        assert(items_bytes(Seq::<ItemModel>::empty()) == Seq::<u8>::empty());
        assert(items_bytes(all) =~= item_bytes(m) + items_bytes(ms));
    } else {
        lemma_items_bytes_cons(m, ms.drop_last());
        assert(all.drop_last() =~= seq![m] + ms.drop_last());
        assert(all.last() == ms.last());
        assert(items_bytes(all) =~= item_bytes(m) + items_bytes(ms));
    }
}

proof fn lemma_pairs_bytes_cons(p: (ItemModel, ItemModel), ps: Seq<(ItemModel, ItemModel)>)
    ensures
        pairs_bytes(seq![p] + ps) == item_bytes(p.0) + item_bytes(p.1) + pairs_bytes(ps),
    decreases ps.len(),
{
    let all = seq![p] + ps;
    if ps.len() == 0 {
        assert(all.drop_last() =~= Seq::<(ItemModel, ItemModel)>::empty());
        assert(all.last() == p);
        assert(pairs_bytes(Seq::<(ItemModel, ItemModel)>::empty()) == Seq::<u8>::empty());
        assert(pairs_bytes(all) =~= item_bytes(p.0) + item_bytes(p.1) + pairs_bytes(ps));
    } else {
        lemma_pairs_bytes_cons(p, ps.drop_last());
        assert(all.drop_last() =~= seq![p] + ps.drop_last());
        assert(all.last() == ps.last());
        assert(pairs_bytes(all) =~= item_bytes(p.0) + item_bytes(p.1) + pairs_bytes(ps));
    }
}

proof fn lemma_item_bytes_nonempty(m: ItemModel)
    ensures
        item_bytes(m).len() >= 1,
{
}

/// The scalar event that an item other than an array, map or tag is written as.
spec fn scalar_event(m: ItemModel) -> EventModel {
    match m {
        ItemModel::Unsigned(n) => EventModel::Unsigned(n),
        ItemModel::Signed(n) => EventModel::Signed(n),
        ItemModel::Float(f) => EventModel::Float(f),
        ItemModel::ByteString(b) => EventModel::ByteString(b),
        ItemModel::TextString(t) => EventModel::TextString(t),
        ItemModel::Simple(v) => EventModel::Simple(v),
        _ => EventModel::Break,
    }
}

proof fn lemma_scalar_round_trip(stack: Seq<Pending>, m: ItemModel, rest: Seq<u8>)
    requires
        item_fits(m),
        !(m is Array || m is Dict || m is Tag),
    ensures
        parse_tree(stack, item_bytes(m) + rest) matches TreeParsed::Item(m2, r2, _) && m2 == m
            && r2 == rest,
{
    let e = scalar_event(m);
    assert(item_bytes(m) == encode_event(e));
    lemma_event_round_trip(stack, e, rest);
    let input = item_bytes(m) + rest;
    assert(input.skip(encode_event(e).len() as int) =~= rest);
}

/// The bytes that the tree encoder writes for an item decode to that item again, whatever
/// follows them and whatever is pending.
#[verifier::rlimit(60)]
pub proof fn lemma_tree_round_trip(stack: Seq<Pending>, m: ItemModel, rest: Seq<u8>)
    requires
        item_fits(m),
    ensures
        parse_tree(stack, item_bytes(m) + rest) matches TreeParsed::Item(m2, r2, _) && m2 == m
            && r2 == rest,
    decreases m,
{
    let input = item_bytes(m) + rest;
    match m {
        ItemModel::Array(s) => {
            let e = EventModel::Array(s.len() as u64);
            let body = items_bytes(s) + rest;
            assert(input =~= encode_event(e) + body);
            lemma_event_round_trip(stack, e, body);
            assert(input.skip(encode_event(e).len() as int) =~= body);
            lemma_array_round_trip(stack_after(stack, e), s, Seq::empty(), rest);
            assert(Seq::<ItemModel>::empty() + s =~= s);
        },
        ItemModel::Dict(s) => {
            let e = EventModel::SizedMap(s.len() as u64);
            let body = pairs_bytes(s) + rest;
            assert(input =~= encode_event(e) + body);
            lemma_event_round_trip(stack, e, body);
            assert(input.skip(encode_event(e).len() as int) =~= body);
            lemma_map_round_trip(stack_after(stack, e), s, Seq::empty(), rest);
            assert(Seq::<(ItemModel, ItemModel)>::empty() + s =~= s);
        },
        ItemModel::Tag(t, b) => {
            let e = EventModel::Tag(t);
            let body = item_bytes(*b) + rest;
            assert(input =~= encode_event(e) + body);
            lemma_event_round_trip(stack, e, body);
            assert(input.skip(encode_event(e).len() as int) =~= body);
            lemma_tree_round_trip(stack_after(stack, e), *b, rest);
        },
        _ => lemma_scalar_round_trip(stack, m, rest),
    }
}

proof fn lemma_array_round_trip(
    stack: Seq<Pending>,
    s: Seq<ItemModel>,
    acc: Seq<ItemModel>,
    rest: Seq<u8>,
)
    requires
        forall|i: int| 0 <= i < s.len() ==> item_fits(#[trigger] s[i]),
    ensures
        parse_array(stack, items_bytes(s) + rest, s.len(), acc) matches TreeParsed::Item(m2, r2, _)
            && m2 == ItemModel::Array(acc + s) && r2 == rest,
    decreases s,
{
    if s.len() == 0 {
        assert(items_bytes(s) + rest =~= rest);
        assert(acc + s =~= acc);
    } else {
        let m = s[0];
        let tail = s.drop_first();
        assert(s =~= seq![m] + tail);
        lemma_items_bytes_cons(m, tail);
        let after = items_bytes(tail) + rest;
        assert(items_bytes(s) + rest =~= item_bytes(m) + after);
        lemma_tree_round_trip(stack, m, after);
        lemma_item_bytes_nonempty(m);
        let next = parse_tree(stack, item_bytes(m) + after)->Item_2;
        assert forall|i: int| 0 <= i < tail.len() implies item_fits(#[trigger] tail[i]) by {
            assert(tail[i] == s[i + 1]);
        }
        lemma_array_round_trip(next, tail, acc.push(m), rest);
        assert(acc.push(m) + tail =~= acc + s);
    }
}

#[verifier::rlimit(60)]
proof fn lemma_map_round_trip(
    stack: Seq<Pending>,
    s: Seq<(ItemModel, ItemModel)>,
    acc: Seq<(ItemModel, ItemModel)>,
    rest: Seq<u8>,
)
    requires
        forall|i: int| 0 <= i < s.len() ==> item_fits(#[trigger] s[i].0) && item_fits(s[i].1),
    ensures
        parse_map(stack, pairs_bytes(s) + rest, s.len(), acc) matches TreeParsed::Item(m2, r2, _)
            && m2 == ItemModel::Dict(acc + s) && r2 == rest,
    decreases s,
{
    if s.len() == 0 {
        assert(pairs_bytes(s) + rest =~= rest);
        assert(acc + s =~= acc);
    } else {
        let p = s[0];
        let tail = s.drop_first();
        assert(s =~= seq![p] + tail);
        lemma_pairs_bytes_cons(p, tail);
        let after = pairs_bytes(tail) + rest;
        let after_key = item_bytes(p.1) + after;
        assert(pairs_bytes(s) + rest =~= item_bytes(p.0) + after_key);
        assert(item_fits(s[0].0) && item_fits(s[0].1));
        lemma_tree_round_trip(stack, p.0, after_key);
        lemma_item_bytes_nonempty(p.0);
        let s1 = parse_tree(stack, item_bytes(p.0) + after_key)->Item_2;
        lemma_tree_round_trip(s1, p.1, after);
        lemma_item_bytes_nonempty(p.1);
        let s2 = parse_tree(s1, item_bytes(p.1) + after)->Item_2;
        assert forall|i: int| 0 <= i < tail.len() implies item_fits(#[trigger] tail[i].0) && item_fits(
            tail[i].1,
        ) by {
            assert(tail[i] == s[i + 1]);
            assert(item_fits(s[i + 1].0) && item_fits(s[i + 1].1));
        }
        lemma_map_round_trip(s2, tail, acc.push(p), rest);
        assert(acc.push(p) + tail =~= acc + s);
    }
}

proof fn lemma_encode_utf8_concat(a: Seq<char>, b: Seq<char>)
    ensures
        encode_utf8(a + b) == encode_utf8(a) + encode_utf8(b),
    decreases a.len(),
{
    if a.len() == 0 {
        assert(a + b =~= b);
        assert(encode_utf8(a) + encode_utf8(b) =~= encode_utf8(b));
    } else {
        lemma_encode_utf8_concat(a.drop_first(), b);
        assert((a + b).drop_first() =~= a.drop_first() + b);
        assert((a + b)[0] == a[0]);
        assert(encode_utf8(a + b) =~= encode_utf8(a) + encode_utf8(b));
    }
}

/// Every item in `s` fits.
pub open spec fn all_fit(s: Seq<ItemModel>) -> bool {
    forall|i: int| 0 <= i < s.len() ==> item_fits(#[trigger] s[i])
}

/// Every key and value in `s` fits.
pub open spec fn all_pairs_fit(s: Seq<(ItemModel, ItemModel)>) -> bool {
    forall|i: int| 0 <= i < s.len() ==> item_fits(#[trigger] s[i].0) && item_fits(s[i].1)
}

proof fn lemma_all_fit_push(s: Seq<ItemModel>, m: ItemModel)
    requires
        all_fit(s),
        item_fits(m),
    ensures
        all_fit(s.push(m)),
{
    assert forall|i: int| 0 <= i < s.push(m).len() implies item_fits(#[trigger] s.push(m)[i]) by {
        if i < s.len() {
            assert(s.push(m)[i] == s[i]);
        }
    }
}

proof fn lemma_all_pairs_fit_push(s: Seq<(ItemModel, ItemModel)>, p: (ItemModel, ItemModel))
    requires
        all_pairs_fit(s),
        item_fits(p.0),
        item_fits(p.1),
    ensures
        all_pairs_fit(s.push(p)),
{
    assert forall|i: int| 0 <= i < s.push(p).len() implies item_fits(#[trigger] s.push(p)[i].0)
        && item_fits(s.push(p)[i].1) by {
        if i < s.len() {
            assert(s.push(p)[i] == s[i]);
        }
    }
}

/// An item built from fewer than 2^64 bytes fits, and takes at least one byte.
proof fn lemma_parsed_tree_fits(stack: Seq<Pending>, input: Seq<u8>)
    requires
        input.len() < 0x1_0000_0000_0000_0000,
    ensures
        parse_tree(stack, input) matches TreeParsed::Item(m, rest, _) ==> item_fits(m)
            && rest.len() < input.len(),
        parse_tree(stack, input) matches TreeParsed::Break(rest, _) ==> rest.len() < input.len(),
    decreases input.len(), 0nat,
{
    match parse_event(stack, input) {
        Parsed::Event(e, k) => {
            if k != 0 && k <= input.len() {
                let s1 = stack_after(stack, e);
                let in1 = input.skip(k as int);
                match e {
                    EventModel::TextString(t) => {
                        lemma_parse_event_text(stack, input);
                    },
                    EventModel::UnknownLengthByteString => {
                        lemma_byte_chunks_fit(s1, in1, Seq::empty());
                    },
                    EventModel::UnknownLengthTextString => {
                        lemma_text_chunks_fit(s1, in1, Seq::empty());
                    },
                    EventModel::Array(n) => {
                        lemma_array_fits(s1, in1, n as nat, Seq::empty());
                    },
                    EventModel::UnknownLengthArray => {
                        lemma_open_array_fits(s1, in1, Seq::empty());
                    },
                    EventModel::SizedMap(n) => {
                        lemma_map_fits(s1, in1, n as nat, Seq::empty());
                    },
                    EventModel::UnknownLengthMap => {
                        lemma_open_map_fits(s1, in1, Seq::empty());
                    },
                    EventModel::Tag(t) => {
                        lemma_parsed_tree_fits(s1, in1);
                    },
                    EventModel::Break => {
                        assert(parse_tree(stack, input) == TreeParsed::Break(in1, s1));
                        assert(in1.len() == input.len() - k);
                    },
                    _ => {},
                }
            }
        },
        _ => {},
    }
}

/// A text string read as one event is no longer, in UTF-8, than the input.
proof fn lemma_parse_event_text(stack: Seq<Pending>, input: Seq<u8>)
    ensures
        parse_event(stack, input) matches Parsed::Event(EventModel::TextString(t), k)
            ==> encode_utf8(t).len() <= k <= input.len(),
{
    if parse_event(stack, input) matches Parsed::Event(EventModel::TextString(t), k) {
        let add = input[0] as int % 32;
        let h = head_len(add);
        let arg = argument(input, add);
        let body = input.subrange(h, h + arg);
        vstd::utf8::decode_utf8_encode_utf8(body);
    }
}

proof fn lemma_byte_chunks_fit(stack: Seq<Pending>, input: Seq<u8>, acc: Seq<u8>)
    ensures
        !(parse_byte_chunks(stack, input, acc) is Break),
        parse_byte_chunks(stack, input, acc) matches TreeParsed::Item(m, rest, _) ==> (m
            matches ItemModel::ByteString(b) && b.len() + rest.len() <= acc.len() + input.len()
            && rest.len() < input.len()),
    decreases input.len(), 1nat,
{
    if let Parsed::Event(e, k) = parse_event(stack, input) {
        if k != 0 && k <= input.len() {
            if let EventModel::ByteString(b) = e {
                lemma_parse_event_size(stack, input);
                lemma_byte_chunks_fit(stack_after(stack, e), input.skip(k as int), acc + b);
            }
        }
    }
}

proof fn lemma_text_chunks_fit(stack: Seq<Pending>, input: Seq<u8>, acc: Seq<char>)
    ensures
        !(parse_text_chunks(stack, input, acc) is Break),
        parse_text_chunks(stack, input, acc) matches TreeParsed::Item(m, rest, _) ==> (m
            matches ItemModel::TextString(t) && encode_utf8(t).len() + rest.len()
            <= encode_utf8(acc).len() + input.len() && rest.len() < input.len()),
    decreases input.len(), 1nat,
{
    if let Parsed::Event(e, k) = parse_event(stack, input) {
        if k != 0 && k <= input.len() {
            if let EventModel::TextString(t) = e {
                lemma_parse_event_text(stack, input);
                lemma_encode_utf8_concat(acc, t);
                lemma_text_chunks_fit(stack_after(stack, e), input.skip(k as int), acc + t);
            }
        }
    }
}

proof fn lemma_array_fits(stack: Seq<Pending>, input: Seq<u8>, n: nat, acc: Seq<ItemModel>)
    requires
        input.len() < 0x1_0000_0000_0000_0000,
        all_fit(acc),
        acc.len() + n < 0x1_0000_0000_0000_0000,
    ensures
        !(parse_array(stack, input, n, acc) is Break),
        parse_array(stack, input, n, acc) matches TreeParsed::Item(m, rest, _) ==> item_fits(m)
            && rest.len() <= input.len(),
    decreases input.len(), 1nat,
{
    if n > 0 {
        lemma_parsed_tree_fits(stack, input);
        if let TreeParsed::Item(m, rest, s) = parse_tree(stack, input) {
            if rest.len() < input.len() {
                lemma_all_fit_push(acc, m);
                lemma_array_fits(s, rest, (n - 1) as nat, acc.push(m));
            }
        }
    }
}

proof fn lemma_open_array_fits(stack: Seq<Pending>, input: Seq<u8>, acc: Seq<ItemModel>)
    requires
        input.len() < 0x1_0000_0000_0000_0000,
        all_fit(acc),
        acc.len() + input.len() < 0x1_0000_0000_0000_0000,
    ensures
        !(parse_open_array(stack, input, acc) is Break),
        parse_open_array(stack, input, acc) matches TreeParsed::Item(m, rest, _) ==> item_fits(m)
            && rest.len() <= input.len(),
    decreases input.len(), 1nat,
{
    lemma_parsed_tree_fits(stack, input);
    if let TreeParsed::Item(m, rest, s) = parse_tree(stack, input) {
        if rest.len() < input.len() {
            lemma_all_fit_push(acc, m);
            lemma_open_array_fits(s, rest, acc.push(m));
        }
    }
}

proof fn lemma_map_fits(
    stack: Seq<Pending>,
    input: Seq<u8>,
    n: nat,
    acc: Seq<(ItemModel, ItemModel)>,
)
    requires
        input.len() < 0x1_0000_0000_0000_0000,
        all_pairs_fit(acc),
        acc.len() + n < 0x1_0000_0000_0000_0000,
    ensures
        !(parse_map(stack, input, n, acc) is Break),
        parse_map(stack, input, n, acc) matches TreeParsed::Item(m, rest, _) ==> item_fits(m)
            && rest.len() <= input.len(),
    decreases input.len(), 1nat,
{
    if n > 0 {
        lemma_parsed_tree_fits(stack, input);
        if let TreeParsed::Item(key, rest1, s1) = parse_tree(stack, input) {
            if rest1.len() < input.len() {
                lemma_map_value_fits(s1, rest1, n, acc, key);
            }
        }
    }
}

proof fn lemma_map_value_fits(
    stack: Seq<Pending>,
    input: Seq<u8>,
    n: nat,
    acc: Seq<(ItemModel, ItemModel)>,
    key: ItemModel,
)
    requires
        input.len() < 0x1_0000_0000_0000_0000,
        all_pairs_fit(acc),
        item_fits(key),
        acc.len() + n < 0x1_0000_0000_0000_0000,
    ensures
        !(parse_map_value(stack, input, n, acc, key) is Break),
        parse_map_value(stack, input, n, acc, key) matches TreeParsed::Item(m, rest, _)
            ==> item_fits(m) && rest.len() <= input.len(),
    decreases input.len(), 2nat,
{
    lemma_parsed_tree_fits(stack, input);
    if let TreeParsed::Item(value, rest, s) = parse_tree(stack, input) {
        if rest.len() < input.len() && n > 0 {
            lemma_all_pairs_fit_push(acc, (key, value));
            lemma_map_fits(s, rest, (n - 1) as nat, acc.push((key, value)));
        }
    }
}

proof fn lemma_open_map_fits(stack: Seq<Pending>, input: Seq<u8>, acc: Seq<(ItemModel, ItemModel)>)
    requires
        input.len() < 0x1_0000_0000_0000_0000,
        all_pairs_fit(acc),
        acc.len() + input.len() < 0x1_0000_0000_0000_0000,
    ensures
        !(parse_open_map(stack, input, acc) is Break),
        parse_open_map(stack, input, acc) matches TreeParsed::Item(m, rest, _) ==> item_fits(m)
            && rest.len() <= input.len(),
    decreases input.len(), 1nat,
{
    lemma_parsed_tree_fits(stack, input);
    if let TreeParsed::Item(key, rest1, s1) = parse_tree(stack, input) {
        if rest1.len() < input.len() {
            lemma_open_map_value_fits(s1, rest1, acc, key);
        }
    }
}

proof fn lemma_open_map_value_fits(
    stack: Seq<Pending>,
    input: Seq<u8>,
    acc: Seq<(ItemModel, ItemModel)>,
    key: ItemModel,
)
    requires
        input.len() < 0x1_0000_0000_0000_0000,
        all_pairs_fit(acc),
        item_fits(key),
        acc.len() + input.len() < 0x1_0000_0000_0000_0000,
    ensures
        !(parse_open_map_value(stack, input, acc, key) is Break),
        parse_open_map_value(stack, input, acc, key) matches TreeParsed::Item(m, rest, _)
            ==> item_fits(m) && rest.len() <= input.len(),
    decreases input.len(), 2nat,
{
    lemma_parsed_tree_fits(stack, input);
    if let TreeParsed::Item(value, rest, s) = parse_tree(stack, input) {
        if rest.len() < input.len() {
            lemma_all_pairs_fit_push(acc, (key, value));
            lemma_open_map_fits(s, rest, acc.push((key, value)));
        }
    }
}

/// Decoding, re-encoding and decoding again gives the same item: what the tree encoder
/// writes for a decoded item is a canonical form of it, and decodes completely.
pub proof fn lemma_tree_projection(input: Seq<u8>)
    requires
        input.len() < 0x1_0000_0000_0000_0000,
        parse_tree(Seq::empty(), input) is Item,
    ensures
        ({
            let m = parse_tree(Seq::empty(), input)->Item_0;
            parse_tree(Seq::empty(), item_bytes(m)) matches TreeParsed::Item(m2, r2, _) && m2 == m
                && r2.len() == 0
        }),
{
    let m = parse_tree(Seq::empty(), input)->Item_0;
    lemma_parsed_tree_fits(Seq::empty(), input);
    lemma_tree_round_trip(Seq::empty(), m, Seq::empty());
    assert(item_bytes(m) + Seq::<u8>::empty() =~= item_bytes(m));
}

} // verus!
