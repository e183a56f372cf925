//! What encoder and decoder promise together.

use super::be;
use super::consts;
use super::consts::{
    ENCODED_NULL, EXPECTED_CONVERSION_TO_BASE64_TAG, INDEF_ARRAY_START, INDEF_MAP_START,
    INITIAL_BYTE_DOUBLE, MAJOR_BYTE_STRING, MAJOR_NEGATIVE, MAJOR_STRING, MAJOR_UNSIGNED, STOP_BYTE,
};
use super::read;
use super::read::Event;
use super::value::Tree;
use super::wire;
use vstd::prelude::*;

verus! {

/// The bytes of `part` stand in `input` at `p`.
pub open spec fn stands_at(input: Seq<u8>, p: int, part: Seq<u8>) -> bool {
    &&& 0 <= p
    &&& p + part.len() <= input.len()
    &&& input.subrange(p, p + part.len()) == part
}

proof fn lemma_stands_split(input: Seq<u8>, p: int, a: Seq<u8>, b: Seq<u8>)
    requires
        stands_at(input, p, a + b),
    ensures
        stands_at(input, p, a),
        stands_at(input, p + a.len(), b),
{
    let whole = input.subrange(p, p + a.len() + b.len());
    assert(whole == a + b);
    assert(input.subrange(p, p + a.len()) == whole.subrange(0, a.len() as int));
    assert(input.subrange(p + a.len(), p + a.len() + b.len()) == whole.subrange(
        a.len() as int,
        (a.len() + b.len()) as int,
    ));
    assert(whole.subrange(0, a.len() as int) == a);
    assert(whole.subrange(a.len() as int, (a.len() + b.len()) as int) == b);
}

proof fn lemma_stands_byte(input: Seq<u8>, p: int, b: u8)
    requires
        stands_at(input, p, seq![b]),
    ensures
        p < input.len(),
        input[p] == b,
{
    assert(input.subrange(p, p + 1)[0] == b);
}

proof fn lemma_wide_token(input: Seq<u8>, p: int, major: u8, info: u8, value: int, width: nat)
    requires
        major < 8,
        info < 32,
        0 <= value < be::pow256(width),
        value <= u64::MAX,
        stands_at(
            input,
            p,
            seq![consts::initial_byte(major as int, info as int)] + be::bytes(value, width),
        ),
    ensures
        input[p] == major * 32 + info,
        read::wide_token(input, p + 1, major, width as int) == Ok::<_, (Seq<char>, int)>(
            ((major, value as u64), p + 1 + width),
        ),
{
    let first = consts::initial_byte(major as int, info as int);
    lemma_stands_split(input, p, seq![first], be::bytes(value, width));
    lemma_stands_byte(input, p, first);
    be::lemma_bytes_len(value, width);
    be::lemma_round_trip(value, width);
}

/// A token start that was written is read back, with the cursor behind it.
pub proof fn law_token_round_trip(input: Seq<u8>, p: int, major: u8, value: u64)
    requires
        major < 8,
        stands_at(input, p, wire::token(major as int, value as int)),
    ensures
        read::token(input, p) == Ok::<_, (Seq<char>, int)>(
            ((major, value), p + wire::token(major as int, value as int).len()),
        ),
        consts::major_of(input[p]) == major,
{
    be::lemma_pow256_values();
    if value < 24 {
        lemma_stands_byte(input, p, consts::initial_byte(major as int, value as int));
    } else if value <= u8::MAX {
        be::lemma_bytes_len(value as int, 1);
        lemma_wide_token(input, p, major, 24, value as int, 1);
    } else if value <= u16::MAX {
        be::lemma_bytes_len(value as int, 2);
        lemma_wide_token(input, p, major, 25, value as int, 2);
    } else if value <= u32::MAX {
        be::lemma_bytes_len(value as int, 4);
        lemma_wide_token(input, p, major, 26, value as int, 4);
    } else {
        be::lemma_bytes_len(value as int, 8);
        lemma_wide_token(input, p, major, 27, value as int, 8);
    }
}

/// An encoded value never starts with a stop byte.
proof fn lemma_no_stop_first(t: Tree)
    requires
        !(t is TupleVariant),
        !(t is StructVariant),
    ensures
        wire::encoded(t).len() > 0,
        wire::encoded(t)[0] != STOP_BYTE,
{
}

proof fn lemma_parts_of_fitting(t: Tree)
    requires
        wire::fits(t),
    ensures
        wire::parts_fit(t),
        !(t is TupleVariant),
        !(t is StructVariant),
{
    reveal_with_fuel(wire::fits, 2);
}

proof fn lemma_int(input: Seq<u8>, p: int, v: i64)
    requires
        input.len() <= usize::MAX,
        stands_at(input, p, wire::encoded(Tree::Int(v))),
    ensures
        read::event(input, p) == Ok::<_, (Seq<char>, int)>(
            (Event::Int(v), p + wire::encoded(Tree::Int(v)).len()),
        ),
{
    if v >= 0 {
        law_token_round_trip(input, p, MAJOR_UNSIGNED, v as u64);
    } else {
        law_token_round_trip(input, p, MAJOR_NEGATIVE, (-1 - v) as u64);
    }
}

proof fn lemma_double(input: Seq<u8>, p: int, bits: u64)
    requires
        input.len() <= usize::MAX,
        stands_at(input, p, wire::encoded(Tree::Double(bits))),
    ensures
        read::event(input, p) == Ok::<_, (Seq<char>, int)>(
            (Event::Double(bits), p + wire::encoded(Tree::Double(bits)).len()),
        ),
{
    let digits = be::bytes(bits as int, 8);
    be::lemma_pow256_values();
    be::lemma_bytes_len(bits as int, 8);
    be::lemma_round_trip(bits as int, 8);
    lemma_stands_split(input, p, seq![INITIAL_BYTE_DOUBLE], digits);
    lemma_stands_byte(input, p, INITIAL_BYTE_DOUBLE);
}

proof fn lemma_text(input: Seq<u8>, p: int, s: Seq<char>)
    requires
        input.len() <= usize::MAX,
        stands_at(input, p, wire::encoded(Tree::Text(s))),
    ensures
        read::event(input, p) == Ok::<_, (Seq<char>, int)>(
            (Event::Text(s), p + wire::encoded(Tree::Text(s)).len()),
        ),
{
    let utf8 = vstd::utf8::encode_utf8(s);
    let head = wire::token(MAJOR_STRING as int, utf8.len() as int);
    lemma_stands_split(input, p, head, utf8);
    law_token_round_trip(input, p, MAJOR_STRING, utf8.len() as u64);
    vstd::utf8::encode_utf8_valid_utf8(s);
    vstd::utf8::encode_utf8_decode_utf8(s);
    assert(read::string(input, p) == Ok::<_, (Seq<char>, int)>(
        (s, p + head.len() + utf8.len()),
    ));
}

proof fn lemma_bytes(input: Seq<u8>, p: int, b: Seq<u8>)
    requires
        input.len() <= usize::MAX,
        stands_at(input, p, wire::encoded(Tree::Bytes(b))),
    ensures
        read::event(input, p) == Ok::<_, (Seq<char>, int)>(
            (Event::Bytes(b), p + wire::encoded(Tree::Bytes(b)).len()),
        ),
{
    let tag = seq![EXPECTED_CONVERSION_TO_BASE64_TAG];
    let head = wire::token(MAJOR_BYTE_STRING as int, b.len() as int);
    assert(tag + head + b == tag + (head + b));
    lemma_stands_split(input, p, tag, head + b);
    lemma_stands_byte(input, p, EXPECTED_CONVERSION_TO_BASE64_TAG);
    lemma_stands_split(input, p + 1, head, b);
    law_token_round_trip(input, p + 1, MAJOR_BYTE_STRING, b.len() as u64);
    assert(read::event(input, p + 1) == Ok::<_, (Seq<char>, int)>(
        (Event::Bytes(b), p + 1 + head.len() + b.len()),
    ));
    assert(read::token(input, p) == Ok::<_, (Seq<char>, int)>(((6u8, 22u64), p + 1)));
}

proof fn lemma_scalar(input: Seq<u8>, p: int, t: Tree)
    requires
        !(t is Array),
        !(t is Object),
        !(t is TupleVariant),
        !(t is StructVariant),
        input.len() <= usize::MAX,
        stands_at(input, p, wire::encoded(t)),
    ensures
        read::item(input, p) == Ok::<_, (Seq<char>, int)>((t, p + wire::encoded(t).len())),
{
    match t {
        Tree::Int(v) => lemma_int(input, p, v),
        Tree::Double(bits) => lemma_double(input, p, bits),
        Tree::Text(s) => lemma_text(input, p, s),
        Tree::Bytes(b) => lemma_bytes(input, p, b),
        _ => lemma_stands_byte(input, p, wire::encoded(t)[0]),
    }
}

/// An envelope says where it ends, if its length fits in the length field, and
/// its content comes right behind its header. So whoever has read only a part
/// of the content can still go on behind it.
pub proof fn law_envelope_says_where_it_ends(input: Seq<u8>, p: int, payload: Seq<u8>)
    requires
        input.len() <= usize::MAX,
        stands_at(input, p, wire::envelope(payload)),
    ensures
        stands_at(input, p + 7, payload),
        read::event(input, p) matches Ok((Event::Envelope(end), q)) && q == p + 7 && (
        payload.len() <= u32::MAX ==> end == p + 7 + payload.len()),
{
    let len = payload.len() as int;
    wire::lemma_envelope_header_len(len);
    lemma_stands_split(input, p, wire::envelope_header(len), payload);
    lemma_header(input, p, len);
}

proof fn lemma_header(input: Seq<u8>, p: int, len: int)
    requires
        input.len() <= usize::MAX,
        0 <= len,
        stands_at(input, p, wire::envelope_header(len)),
    ensures
        read::event(input, p) matches Ok((Event::Envelope(end), q)) && q == p + 7 && (len
            <= u32::MAX ==> end == read::clamped(p + 7 + len)),
{
    let digits = be::bytes(len, 4);
    let start = seq![
        consts::INITIAL_BYTE_ENVELOPE,
        consts::CBOR_ENVELOPE_TAG,
        consts::INITIAL_BYTE_32BIT_BYTESTRING,
    ];
    be::lemma_bytes_len(len, 4);
    be::lemma_pow256_values();
    lemma_stands_split(input, p, start, digits);
    assert(input.subrange(p, p + 3)[0] == start[0]);
    assert(input.subrange(p, p + 3)[1] == start[1]);
    assert(input.subrange(p, p + 3)[2] == start[2]);
    be::lemma_number_bound(digits);
    if len <= u32::MAX {
        be::lemma_round_trip(len, 4);
    }
}

/// A value that was encoded is read back from wherever it stands in an input,
/// with the cursor right behind it, as long as every envelope's length fits in
/// its length field. So an encoded value says itself where it ends.
pub proof fn law_value_round_trip(input: Seq<u8>, p: int, t: Tree)
    requires
        input.len() <= usize::MAX,
        stands_at(input, p, wire::encoded(t)),
        wire::fits(t),
    ensures
        read::item(input, p) == Ok::<_, (Seq<char>, int)>((t, p + wire::encoded(t).len())),
    decreases t, 2int,
{
    match t {
        Tree::Array(items) => {
            law_envelope_says_where_it_ends(input, p, wire::array_payload(items));
            lemma_array_content(input, p + 7, items);
            wire::lemma_envelope_header_len(wire::array_payload(items).len() as int);
        },
        Tree::Object(entries) => {
            law_envelope_says_where_it_ends(input, p, wire::object_payload(entries));
            lemma_object_content(input, p + 7, entries);
            wire::lemma_envelope_header_len(wire::object_payload(entries).len() as int);
        },
        _ => {
            lemma_parts_of_fitting(t);
            lemma_scalar(input, p, t);
        },
    }
}

proof fn lemma_array_content(input: Seq<u8>, p: int, items: Seq<Tree>)
    requires
        input.len() <= usize::MAX,
        stands_at(input, p, wire::array_payload(items)),
        wire::items_fit(items),
    ensures
        read::item(input, p) matches Ok((t, _)) && t == Tree::Array(items),
    decreases items, 1int,
{
    let start = seq![INDEF_ARRAY_START];
    let rest = wire::encoded_items(items) + seq![STOP_BYTE];
    assert(wire::array_payload(items) == start + rest);
    lemma_stands_split(input, p, start, rest);
    lemma_stands_byte(input, p, INDEF_ARRAY_START);
    lemma_items(input, p + 1, items);
}

proof fn lemma_object_content(input: Seq<u8>, p: int, entries: Seq<(Tree, Tree)>)
    requires
        input.len() <= usize::MAX,
        stands_at(input, p, wire::object_payload(entries)),
        wire::entries_fit(entries),
    ensures
        read::item(input, p) matches Ok((t, _)) && t == Tree::Object(entries),
    decreases entries, 1int,
{
    let start = seq![INDEF_MAP_START];
    let rest = wire::encoded_entries(entries) + seq![STOP_BYTE];
    assert(wire::object_payload(entries) == start + rest);
    lemma_stands_split(input, p, start, rest);
    lemma_stands_byte(input, p, INDEF_MAP_START);
    lemma_entries(input, p + 1, entries);
}

proof fn lemma_items(input: Seq<u8>, p: int, items: Seq<Tree>)
    requires
        input.len() <= usize::MAX,
        stands_at(input, p, wire::encoded_items(items) + seq![STOP_BYTE]),
        wire::items_fit(items),
    ensures
        read::items(input, p) matches Ok((ts, _)) && ts == items,
    decreases items, 0int,
{
    if items.len() == 0 {
        assert(wire::encoded_items(items) + seq![STOP_BYTE] == seq![STOP_BYTE]);
        lemma_stands_byte(input, p, STOP_BYTE);
        assert(items == Seq::<Tree>::empty());
    } else {
        let first = wire::encoded(items[0]);
        let others = items.subrange(1, items.len() as int);
        let rest = wire::encoded_items(others) + seq![STOP_BYTE];
        assert(wire::encoded_items(items) + seq![STOP_BYTE] == first + rest);
        lemma_stands_split(input, p, first, rest);
        lemma_parts_of_fitting(items[0]);
        lemma_no_stop_first(items[0]);
        assert(input.subrange(p, p + first.len())[0] == input[p]);
        law_value_round_trip(input, p, items[0]);
        lemma_items(input, p + first.len(), others);
        assert(seq![items[0]] + others == items);
    }
}

proof fn lemma_entries(input: Seq<u8>, p: int, entries: Seq<(Tree, Tree)>)
    requires
        input.len() <= usize::MAX,
        stands_at(input, p, wire::encoded_entries(entries) + seq![STOP_BYTE]),
        wire::entries_fit(entries),
    ensures
        read::entries(input, p) matches Ok((ts, _)) && ts == entries,
    decreases entries, 0int,
{
    if entries.len() == 0 {
        assert(wire::encoded_entries(entries) + seq![STOP_BYTE] == seq![STOP_BYTE]);
        lemma_stands_byte(input, p, STOP_BYTE);
        assert(entries == Seq::<(Tree, Tree)>::empty());
    } else {
        let first = entries[0];
        let key = wire::encoded(first.0);
        let value = wire::encoded(first.1);
        let others = entries.subrange(1, entries.len() as int);
        let rest = wire::encoded_entries(others) + seq![STOP_BYTE];
        assert(wire::encoded_entries(entries) + seq![STOP_BYTE] == key + (value + rest));
        lemma_stands_split(input, p, key, value + rest);
        lemma_stands_split(input, p + key.len(), value, rest);
        lemma_parts_of_fitting(first.0);
        lemma_parts_of_fitting(first.1);
        lemma_no_stop_first(first.0);
        lemma_no_stop_first(first.1);
        assert(input.subrange(p, p + key.len())[0] == input[p]);
        law_value_round_trip(input, p, first.0);
        law_value_round_trip(input, p + key.len(), first.1);
        lemma_entries(input, p + key.len() + value.len(), others);
        assert(seq![first] + others == entries);
    }
}

/// The items of an array can be written one by one.
pub proof fn law_items_one_by_one(items: Seq<Tree>, t: Tree)
    ensures
        wire::encoded_items(items.push(t)) == wire::encoded_items(items) + wire::encoded(t),
    decreases items.len(),
{
    let more = items.push(t);
    if items.len() == 0 {
        reveal_with_fuel(wire::encoded_items, 2);
        assert(more[0] == t);
    } else {
        let others = items.subrange(1, items.len() as int);
        law_items_one_by_one(others, t);
        assert(more.subrange(1, more.len() as int) == others.push(t));
        assert(more[0] == items[0]);
    }
}

/// The entries of an object can be written one by one, each key before its
/// value.
pub proof fn law_entries_one_by_one(entries: Seq<(Tree, Tree)>, key: Tree, value: Tree)
    ensures
        wire::encoded_entries(entries.push((key, value))) == wire::encoded_entries(entries)
            + wire::encoded(key) + wire::encoded(value),
    decreases entries.len(),
{
    let more = entries.push((key, value));
    if entries.len() == 0 {
        reveal_with_fuel(wire::encoded_entries, 2);
        assert(more[0] == (key, value));
    } else {
        let others = entries.subrange(1, entries.len() as int);
        law_entries_one_by_one(others, key, value);
        assert(more.subrange(1, more.len() as int) == others.push((key, value)));
        assert(more[0] == entries[0]);
    }
}

pub proof fn lemma_entries_fit_one_more(entries: Seq<(Tree, Tree)>, key: Tree, value: Tree)
    requires
        wire::entries_fit(entries),
        wire::fits(key),
        wire::fits(value),
    ensures
        wire::entries_fit(entries.push((key, value))),
    decreases entries.len(),
{
    let more = entries.push((key, value));
    if entries.len() == 0 {
        reveal_with_fuel(wire::entries_fit, 2);
        assert(more[0] == (key, value));
    } else {
        let others = entries.subrange(1, entries.len() as int);
        lemma_entries_fit_one_more(others, key, value);
        assert(more.subrange(1, more.len() as int) == others.push((key, value)));
        assert(more[0] == entries[0]);
    }
}

/// Decoding what was encoded gives the value back, whatever follows it. The
/// outermost envelope may say anything about its length; those inside have to
/// fit.
pub proof fn law_decode_gives_back_what_was_encoded(t: Tree, rest: Seq<u8>)
    requires
        wire::parts_fit(t),
        (wire::encoded(t) + rest).len() <= usize::MAX,
    ensures
        read::item(wire::encoded(t) + rest, 0) matches Ok((u, _)) && u == t,
{
    let input = wire::encoded(t) + rest;
    assert(input.subrange(0, wire::encoded(t).len() as int) == wire::encoded(t));
    match t {
        Tree::Array(items) => {
            law_envelope_says_where_it_ends(input, 0, wire::array_payload(items));
            lemma_array_content(input, 7, items);
        },
        Tree::Object(entries) => {
            law_envelope_says_where_it_ends(input, 0, wire::object_payload(entries));
            lemma_object_content(input, 7, entries);
        },
        _ => lemma_scalar(input, 0, t),
    }
}

/// What fits is not refused.
pub proof fn law_what_fits_is_not_refused(t: Tree)
    requires
        wire::parts_fit(t),
    ensures
        wire::refusal(t) is None,
    decreases t, 1int,
{
    match t {
        Tree::Array(items) => lemma_fitting_items_not_refused(items),
        Tree::Object(entries) => lemma_fitting_entries_not_refused(entries),
        _ => {},
    }
}

proof fn lemma_fitting_items_not_refused(items: Seq<Tree>)
    requires
        wire::items_fit(items),
    ensures
        wire::refusal_in_items(items) is None,
    decreases items, 0int,
{
    if items.len() > 0 {
        lemma_parts_of_fitting(items[0]);
        law_what_fits_is_not_refused(items[0]);
        lemma_fitting_items_not_refused(items.subrange(1, items.len() as int));
    }
}

proof fn lemma_fitting_entries_not_refused(entries: Seq<(Tree, Tree)>)
    requires
        wire::entries_fit(entries),
    ensures
        wire::refusal_in_entries(entries) is None,
    decreases entries, 0int,
{
    if entries.len() > 0 {
        let first = entries[0];
        lemma_parts_of_fitting(first.0);
        lemma_parts_of_fitting(first.1);
        law_what_fits_is_not_refused(first.0);
        law_what_fits_is_not_refused(first.1);
        lemma_fitting_entries_not_refused(entries.subrange(1, entries.len() as int));
    }
}

/// An array is refused in the words of the first of its items that is, and only
/// if there is one.
pub proof fn law_first_refused_item_tells(items: Seq<Tree>, i: int)
    ensures
        (0 <= i < items.len() && wire::refusal(items[i]) is Some && forall|j: int|
            0 <= j < i ==> wire::refusal(#[trigger] items[j]) is None) ==> wire::refusal(
            Tree::Array(items),
        ) == wire::refusal(items[i]),
        (forall|j: int| 0 <= j < items.len() ==> wire::refusal(#[trigger] items[j]) is None)
            ==> wire::refusal(Tree::Array(items)) is None,
    decreases items.len(),
{
    reveal_with_fuel(wire::refusal, 2);
    if items.len() > 0 {
        let others = items.subrange(1, items.len() as int);
        law_first_refused_item_tells(others, i - 1);
        assert(forall|j: int| 0 <= j < others.len() ==> others[j] == items[j + 1]);
        assert(forall|j: int| 1 <= j < items.len() ==> items[j] == others[j - 1]);
    }
}

/// An object is refused in the words of the first of its keys and values that
/// is, a key coming before its value, and only if there is one.
pub proof fn law_first_refused_entry_tells(entries: Seq<(Tree, Tree)>, i: int)
    ensures
        (0 <= i < entries.len() && entry_refusal(entries[i]) is Some && forall|j: int|
            0 <= j < i ==> entry_refusal(#[trigger] entries[j]) is None) ==> wire::refusal(
            Tree::Object(entries),
        ) == entry_refusal(entries[i]),
        (forall|j: int| 0 <= j < entries.len() ==> entry_refusal(#[trigger] entries[j]) is None)
            ==> wire::refusal(Tree::Object(entries)) is None,
    decreases entries.len(),
{
    reveal_with_fuel(wire::refusal, 2);
    if entries.len() > 0 {
        let others = entries.subrange(1, entries.len() as int);
        law_first_refused_entry_tells(others, i - 1);
        assert(forall|j: int| 0 <= j < others.len() ==> others[j] == entries[j + 1]);
        assert(forall|j: int| 1 <= j < entries.len() ==> entries[j] == others[j - 1]);
    }
}

/// Why an entry cannot be encoded, if it cannot.
pub open spec fn entry_refusal(entry: (Tree, Tree)) -> Option<Seq<char>> {
    match wire::refusal(entry.0) {
        Some(message) => Some(message),
        None => wire::refusal(entry.1),
    }
}

/// Two values with the same encoding are the same value.
pub proof fn law_encoding_is_injective(a: Tree, b: Tree)
    requires
        wire::parts_fit(a),
        wire::parts_fit(b),
        wire::encoded(a).len() <= usize::MAX,
        wire::encoded(a) == wire::encoded(b),
    ensures
        a == b,
{
    assert(wire::encoded(a) + seq![] == wire::encoded(a));
    assert(wire::encoded(b) + seq![] == wire::encoded(b));
    law_decode_gives_back_what_was_encoded(a, seq![]);
    law_decode_gives_back_what_was_encoded(b, seq![]);
}

/// An encoded array or object looks like a message, and its header says how
/// long it is, whatever follows it.
pub proof fn law_message_says_its_length(t: Tree, rest: Seq<u8>)
    requires
        t is Array || t is Object,
        wire::fits(t),
    ensures
        consts::looks_like_cbor(wire::encoded(t) + rest),
        read::frame_len(wire::encoded(t) + rest) == Ok::<_, Seq<char>>(
            Some(wire::encoded(t).len() as int),
        ),
{
    let payload = match t {
        Tree::Array(items) => wire::array_payload(items),
        Tree::Object(entries) => wire::object_payload(entries),
        _ => seq![],
    };
    let len = payload.len() as int;
    let digits = be::bytes(len, 4);
    wire::lemma_envelope_header_len(len);
    be::lemma_bytes_len(len, 4);
    be::lemma_pow256_values();
    be::lemma_round_trip(len, 4);
    assert((wire::encoded(t) + rest).subrange(3, 7) == digits);
}

/// Once the length of a message is known, or it is known not to be one, more
/// bytes change nothing.
pub proof fn law_message_length_is_final(bytes: Seq<u8>, more: Seq<u8>)
    requires
        !(read::frame_len(bytes) matches Ok(None)),
    ensures
        read::frame_len(bytes + more) == read::frame_len(bytes),
{
    let at: int = if bytes.len() > 1 && bytes[1] == consts::CBOR_ENVELOPE_TAG {
        2
    } else {
        1
    };
    if bytes[0] == consts::INITIAL_BYTE_ENVELOPE {
        assert((bytes + more).subrange(at + 1, at + 5) == bytes.subrange(at + 1, at + 5));
    }
}

/// Bytes with a known message length look like a message, and the decoder
/// takes the same length for the end of the outermost envelope.
pub proof fn law_message_length_is_envelope_end(bytes: Seq<u8>)
    requires
        read::frame_len(bytes) matches Ok(Some(_)),
    ensures
        consts::looks_like_cbor(bytes),
        read::frame_len(bytes) matches Ok(Some(len)) && read::event(bytes, 0) matches Ok(
            (Event::Envelope(end), _),
        ) && end == read::clamped(len),
{
    let at: int = if bytes.len() > 1 && bytes[1] == consts::CBOR_ENVELOPE_TAG {
        2
    } else {
        1
    };
    let digits = bytes.subrange(at + 1, at + 5);
    be::lemma_number_bound(digits);
    be::lemma_pow256_values();
}

/// Behind an envelope the cursor stands where the envelope says that it ends,
/// however much of it the item inside took up.
pub proof fn law_envelope_bounds_its_item(input: Seq<u8>, p: int)
    ensures
        read::event(input, p) matches Ok((Event::Envelope(end), _)) ==> (read::item(
            input,
            p,
        ) matches Ok((_, q)) ==> q == end),
{
}

/// The input ends before all the bytes of `part`, which start at `p`.
pub open spec fn cut_off_at(input: Seq<u8>, p: int, part: Seq<u8>) -> bool {
    &&& 0 <= p <= input.len() < p + part.len()
    &&& forall|i: int| p <= i < input.len() ==> #[trigger] input[i] == part[i - p]
}

/// The read fails because the input ends.
pub open spec fn ends_early<T>(r: read::Read<T>) -> bool {
    r matches Err((message, _)) && message == "unexpected EOF"@
}

proof fn lemma_cut_off_split(input: Seq<u8>, p: int, a: Seq<u8>, b: Seq<u8>)
    requires
        cut_off_at(input, p, a + b),
    ensures
        cut_off_at(input, p, a) || (stands_at(input, p, a) && cut_off_at(input, p + a.len(), b)),
{
    assert forall|i: int| p <= i < input.len() implies #[trigger] input[i] == (a + b)[i - p] by {}
    if input.len() >= p + a.len() {
        assert(input.subrange(p, p + a.len()) == a);
        assert forall|i: int| p + a.len() <= i < input.len() implies #[trigger] input[i] == b[i - (p
            + a.len())] by {}
    }
}

proof fn lemma_cut_off_token(input: Seq<u8>, p: int, major: u8, value: u64)
    requires
        major < 8,
        cut_off_at(input, p, wire::token(major as int, value as int)),
    ensures
        ends_early(read::token(input, p)),
        p < input.len() ==> consts::major_of(input[p]) == major,
        p < input.len() ==> input[p] == wire::token(major as int, value as int)[0],
{
    be::lemma_bytes_len(value as int, 1);
    be::lemma_bytes_len(value as int, 2);
    be::lemma_bytes_len(value as int, 4);
    be::lemma_bytes_len(value as int, 8);
    if p < input.len() {
        assert(input[p] == wire::token(major as int, value as int)[p - p]);
    }
}

proof fn lemma_cut_off_text(input: Seq<u8>, p: int, s: Seq<char>)
    requires
        input.len() <= usize::MAX,
        vstd::utf8::encode_utf8(s).len() <= u64::MAX,
        cut_off_at(input, p, wire::encoded(Tree::Text(s))),
    ensures
        ends_early(read::event(input, p)),
{
    let utf8 = vstd::utf8::encode_utf8(s);
    let head = wire::token(MAJOR_STRING as int, utf8.len() as int);
    lemma_cut_off_split(input, p, head, utf8);
    if cut_off_at(input, p, head) {
        lemma_cut_off_token(input, p, MAJOR_STRING, utf8.len() as u64);
    } else {
        law_token_round_trip(input, p, MAJOR_STRING, utf8.len() as u64);
    }
}

proof fn lemma_cut_off_bytes(input: Seq<u8>, p: int, b: Seq<u8>)
    requires
        input.len() <= usize::MAX,
        b.len() <= u64::MAX,
        cut_off_at(input, p, wire::encoded(Tree::Bytes(b))),
    ensures
        ends_early(read::event(input, p)),
{
    let tag = seq![EXPECTED_CONVERSION_TO_BASE64_TAG];
    let head = wire::token(MAJOR_BYTE_STRING as int, b.len() as int);
    assert(tag + head + b == tag + (head + b));
    lemma_cut_off_split(input, p, tag, head + b);
    if p < input.len() {
        lemma_stands_byte(input, p, EXPECTED_CONVERSION_TO_BASE64_TAG);
        lemma_cut_off_split(input, p + 1, head, b);
        if cut_off_at(input, p + 1, head) {
            lemma_cut_off_token(input, p + 1, MAJOR_BYTE_STRING, b.len() as u64);
        } else {
            law_token_round_trip(input, p + 1, MAJOR_BYTE_STRING, b.len() as u64);
        }
        assert(ends_early(read::event(input, p + 1)));
        assert(read::token(input, p) == Ok::<_, (Seq<char>, int)>(((6u8, 22u64), p + 1)));
    }
}

proof fn lemma_cut_off_scalar(input: Seq<u8>, p: int, t: Tree)
    requires
        !(t is Array),
        !(t is Object),
        !(t is TupleVariant),
        !(t is StructVariant),
        input.len() <= usize::MAX,
        wire::encoded(t).len() <= u64::MAX,
        cut_off_at(input, p, wire::encoded(t)),
    ensures
        ends_early(read::event(input, p)),
{
    match t {
        Tree::Int(v) => if v >= 0 {
            lemma_cut_off_token(input, p, MAJOR_UNSIGNED, v as u64);
        } else {
            lemma_cut_off_token(input, p, MAJOR_NEGATIVE, (-1 - v) as u64);
        },
        Tree::Double(bits) => {
            be::lemma_bytes_len(bits as int, 8);
            if p < input.len() {
                assert(input[p] == wire::encoded(t)[p - p]);
            }
        },
        Tree::Text(s) => lemma_cut_off_text(input, p, s),
        Tree::Bytes(b) => lemma_cut_off_bytes(input, p, b),
        _ => {},
    }
}

proof fn lemma_cut_off_header(input: Seq<u8>, p: int, len: int)
    requires
        input.len() <= usize::MAX,
        cut_off_at(input, p, wire::envelope_header(len)),
    ensures
        ends_early(read::event(input, p)),
{
    let header = wire::envelope_header(len);
    wire::lemma_envelope_header_len(len);
    if p < input.len() {
        assert(input[p] == header[p - p]);
        if p + 1 < input.len() {
            assert(input[p + 1] == header[p + 1 - p]);
            if p + 2 < input.len() {
                assert(input[p + 2] == header[p + 2 - p]);
            }
        }
    }
}

/// An encoded value that is cut off, wherever that is, is refused because the
/// input ends.
pub proof fn law_cut_off_value_ends_early(input: Seq<u8>, p: int, t: Tree)
    requires
        input.len() <= usize::MAX,
        wire::parts_fit(t),
        wire::encoded(t).len() <= u64::MAX,
        cut_off_at(input, p, wire::encoded(t)),
    ensures
        ends_early(read::item(input, p)),
    decreases t, 2int,
{
    match t {
        Tree::Array(items) => {
            let payload = wire::array_payload(items);
            let header = wire::envelope_header(payload.len() as int);
            lemma_cut_off_split(input, p, header, payload);
            wire::lemma_envelope_header_len(payload.len() as int);
            if cut_off_at(input, p, header) {
                lemma_cut_off_header(input, p, payload.len() as int);
            } else {
                lemma_header(input, p, payload.len() as int);
                lemma_cut_off_array(input, p + 7, items);
            }
        },
        Tree::Object(entries) => {
            let payload = wire::object_payload(entries);
            let header = wire::envelope_header(payload.len() as int);
            lemma_cut_off_split(input, p, header, payload);
            wire::lemma_envelope_header_len(payload.len() as int);
            if cut_off_at(input, p, header) {
                lemma_cut_off_header(input, p, payload.len() as int);
            } else {
                lemma_header(input, p, payload.len() as int);
                lemma_cut_off_object(input, p + 7, entries);
            }
        },
        _ => lemma_cut_off_scalar(input, p, t),
    }
}

proof fn lemma_cut_off_array(input: Seq<u8>, p: int, items: Seq<Tree>)
    requires
        input.len() <= usize::MAX,
        wire::items_fit(items),
        wire::array_payload(items).len() <= u64::MAX,
        cut_off_at(input, p, wire::array_payload(items)),
    ensures
        ends_early(read::item(input, p)),
    decreases items, 1int,
{
    let start = seq![INDEF_ARRAY_START];
    let rest = wire::encoded_items(items) + seq![STOP_BYTE];
    assert(wire::array_payload(items) == start + rest);
    lemma_cut_off_split(input, p, start, rest);
    if p < input.len() {
        lemma_stands_byte(input, p, INDEF_ARRAY_START);
        lemma_cut_off_items(input, p + 1, items);
    }
}

proof fn lemma_cut_off_object(input: Seq<u8>, p: int, entries: Seq<(Tree, Tree)>)
    requires
        input.len() <= usize::MAX,
        wire::entries_fit(entries),
        wire::object_payload(entries).len() <= u64::MAX,
        cut_off_at(input, p, wire::object_payload(entries)),
    ensures
        ends_early(read::item(input, p)),
    decreases entries, 1int,
{
    let start = seq![INDEF_MAP_START];
    let rest = wire::encoded_entries(entries) + seq![STOP_BYTE];
    assert(wire::object_payload(entries) == start + rest);
    lemma_cut_off_split(input, p, start, rest);
    if p < input.len() {
        lemma_stands_byte(input, p, INDEF_MAP_START);
        lemma_cut_off_entries(input, p + 1, entries);
    }
}

proof fn lemma_cut_off_items(input: Seq<u8>, p: int, items: Seq<Tree>)
    requires
        input.len() <= usize::MAX,
        wire::items_fit(items),
        wire::encoded_items(items).len() <= u64::MAX,
        cut_off_at(input, p, wire::encoded_items(items) + seq![STOP_BYTE]),
    ensures
        ends_early(read::items(input, p)),
    decreases items, 0int,
{
    if p < input.len() {
        let first = wire::encoded(items[0]);
        let others = items.subrange(1, items.len() as int);
        let rest = wire::encoded_items(others) + seq![STOP_BYTE];
        assert(wire::encoded_items(items) + seq![STOP_BYTE] == first + rest);
        lemma_parts_of_fitting(items[0]);
        lemma_no_stop_first(items[0]);
        assert(input[p] == (first + rest)[p - p]);
        lemma_cut_off_split(input, p, first, rest);
        if cut_off_at(input, p, first) {
            law_cut_off_value_ends_early(input, p, items[0]);
        } else {
            law_value_round_trip(input, p, items[0]);
            lemma_cut_off_items(input, p + first.len(), others);
        }
    }
}

proof fn lemma_cut_off_entries(input: Seq<u8>, p: int, entries: Seq<(Tree, Tree)>)
    requires
        input.len() <= usize::MAX,
        wire::entries_fit(entries),
        wire::encoded_entries(entries).len() <= u64::MAX,
        cut_off_at(input, p, wire::encoded_entries(entries) + seq![STOP_BYTE]),
    ensures
        ends_early(read::entries(input, p)),
    decreases entries, 0int,
{
    if p < input.len() {
        let first = entries[0];
        let key = wire::encoded(first.0);
        let value = wire::encoded(first.1);
        let others = entries.subrange(1, entries.len() as int);
        let rest = wire::encoded_entries(others) + seq![STOP_BYTE];
        assert(wire::encoded_entries(entries) + seq![STOP_BYTE] == key + (value + rest));
        lemma_parts_of_fitting(first.0);
        lemma_parts_of_fitting(first.1);
        lemma_no_stop_first(first.0);
        lemma_no_stop_first(first.1);
        assert(input[p] == (key + (value + rest))[p - p]);
        lemma_cut_off_split(input, p, key, value + rest);
        if cut_off_at(input, p, key) {
            law_cut_off_value_ends_early(input, p, first.0);
        } else {
            law_value_round_trip(input, p, first.0);
            lemma_cut_off_split(input, p + key.len(), value, rest);
            if cut_off_at(input, p + key.len(), value) {
                law_cut_off_value_ends_early(input, p + key.len(), first.1);
            } else {
                law_value_round_trip(input, p + key.len(), first.1);
                lemma_cut_off_entries(input, p + key.len() + value.len(), others);
            }
        }
    }
}

/// What follows a value that can be decoded is not looked at: with more bytes
/// behind it, the same value is read and the cursor ends up in the same place.
pub proof fn law_what_follows_is_ignored(input: Seq<u8>, more: Seq<u8>, p: int)
    requires
        0 <= p,
        read::item(input, p) is Ok,
    ensures
        read::item(input + more, p) == read::item(input, p),
    decreases read::left(input, p), 1int,
{
    lemma_event_stays(input, more, p);
    read::lemma_event_advances(input, p);
    match read::event(input, p) {
        Ok((Event::Envelope(_), q)) => law_what_follows_is_ignored(input, more, q),
        Ok((Event::ArrayStart, q)) => lemma_items_stay(input, more, q),
        Ok((Event::ObjectStart, q)) => lemma_entries_stay(input, more, q),
        _ => {},
    }
}

proof fn lemma_items_stay(input: Seq<u8>, more: Seq<u8>, p: int)
    requires
        0 <= p,
        read::items(input, p) is Ok,
    ensures
        read::items(input + more, p) == read::items(input, p),
    decreases read::left(input, p), 2int,
{
    assert((input + more)[p] == input[p]);
    if input[p] != STOP_BYTE {
        law_what_follows_is_ignored(input, more, p);
        if let Ok((_, q)) = read::item(input, p) {
            lemma_items_stay(input, more, q);
        }
    }
}

proof fn lemma_entries_stay(input: Seq<u8>, more: Seq<u8>, p: int)
    requires
        0 <= p,
        read::entries(input, p) is Ok,
    ensures
        read::entries(input + more, p) == read::entries(input, p),
    decreases read::left(input, p), 2int,
{
    assert((input + more)[p] == input[p]);
    if input[p] != STOP_BYTE {
        law_what_follows_is_ignored(input, more, p);
        if let Ok((_, q)) = read::item(input, p) {
            law_what_follows_is_ignored(input, more, q);
            if let Ok((_, r)) = read::item(input, q) {
                lemma_entries_stay(input, more, r);
            }
        }
    }
}

proof fn lemma_chunk_stays(input: Seq<u8>, more: Seq<u8>, p: int, n: int)
    requires
        0 <= p,
        0 <= n,
        read::chunk(input, p, n) is Ok,
    ensures
        read::chunk(input + more, p, n) == read::chunk(input, p, n),
{
    assert((input + more).subrange(p, p + n) == input.subrange(p, p + n));
}

proof fn lemma_token_stays(input: Seq<u8>, more: Seq<u8>, p: int)
    requires
        0 <= p,
        read::token(input, p) is Ok,
    ensures
        read::token(input + more, p) == read::token(input, p),
        read::token(input, p) matches Ok((_, q)) ==> p < q,
{
    assert((input + more)[p] == input[p]);
    let info = consts::info_of(input[p]);
    if info == 24 {
        lemma_chunk_stays(input, more, p + 1, 1);
    } else if info == 25 {
        lemma_chunk_stays(input, more, p + 1, 2);
    } else if info == 26 {
        lemma_chunk_stays(input, more, p + 1, 4);
    } else if info == 27 {
        lemma_chunk_stays(input, more, p + 1, 8);
    }
}

proof fn lemma_event_stays(input: Seq<u8>, more: Seq<u8>, p: int)
    requires
        0 <= p,
        read::event(input, p) is Ok,
    ensures
        read::event(input + more, p) == read::event(input, p),
    decreases read::left(input, p),
{
    let longer = input + more;
    assert(longer[p] == input[p]);
    let major = consts::major_of(input[p]);
    if input[p] == consts::INITIAL_BYTE_ENVELOPE {
        assert(longer[p + 1] == input[p + 1]);
        let header = if input[p + 1] == consts::CBOR_ENVELOPE_TAG {
            p + 2
        } else {
            p + 1
        };
        lemma_token_stays(input, more, header);
    } else if major == MAJOR_UNSIGNED || major == MAJOR_NEGATIVE {
        lemma_token_stays(input, more, p);
    } else if major == MAJOR_BYTE_STRING || major == MAJOR_STRING {
        lemma_token_stays(input, more, p);
        if let Ok(((_, len), q)) = read::token(input, p) {
            lemma_chunk_stays(input, more, q, len as int);
        }
    } else if major == consts::MAJOR_TAG {
        lemma_token_stays(input, more, p);
        if let Ok((_, q)) = read::token(input, p) {
            lemma_event_stays(input, more, q);
        }
    } else if input[p] == INITIAL_BYTE_DOUBLE {
        lemma_chunk_stays(input, more, p + 1, 8);
    }
}

/// A tag other than that of an envelope changes nothing about the value that
/// follows it.
pub proof fn law_tags_are_passed_over(input: Seq<u8>, p: int)
    requires
        0 <= p < input.len(),
        consts::major_of(input[p]) == consts::MAJOR_TAG,
        input[p] != consts::INITIAL_BYTE_ENVELOPE,
    ensures
        read::token(input, p) matches Ok((_, q)) ==> read::item(input, p) == read::item(input, q),
{
    if let Ok((_, q)) = read::token(input, p) {
        assert(read::event(input, p) == read::event(input, q));
    }
}

/// A null that was written is an optional value that is missing, and no other
/// value is.
pub proof fn law_null_is_a_missing_value(input: Seq<u8>, p: int, t: Tree)
    requires
        wire::refusal(t) is None,
        stands_at(input, p, wire::encoded(t)),
    ensures
        read::marked(input, p, ENCODED_NULL) matches Ok((missing, q)) && (missing <==> t is Null)
            && q == if missing {
            p + wire::encoded(t).len()
        } else {
            p
        },
{
    lemma_no_stop_first(t);
    assert(input.subrange(p, p + wire::encoded(t).len())[0] == input[p]);
}

/// A variant without fields is read back by its name.
pub proof fn law_unit_variant_round_trip(input: Seq<u8>, p: int, name: Seq<char>)
    requires
        input.len() <= usize::MAX,
        stands_at(input, p, wire::encoded(Tree::Text(name))),
    ensures
        read::variant(input, p) == Ok::<_, (Seq<char>, int)>(
            (Some(name), p + wire::encoded(Tree::Text(name)).len()),
        ),
{
    let utf8 = vstd::utf8::encode_utf8(name);
    let head = wire::token(MAJOR_STRING as int, utf8.len() as int);
    lemma_stands_split(input, p, head, utf8);
    law_token_round_trip(input, p, MAJOR_STRING, utf8.len() as u64);
    lemma_text(input, p, name);
}

/// A variant with one field is read back in four steps: the start of the
/// object, the variant's name, the field, and the stop byte, behind which the
/// encoding ends.
pub proof fn law_newtype_variant_round_trip(input: Seq<u8>, p: int, name: Seq<char>, field: Tree)
    requires
        input.len() <= usize::MAX,
        stands_at(input, p, wire::encoded(Tree::Object(seq![(Tree::Text(name), field)]))),
        wire::fits(field),
    ensures
        ({
            let at_name = p + 8;
            let at_field = at_name + wire::encoded(Tree::Text(name)).len();
            let at_stop = at_field + wire::encoded(field).len();
            &&& read::variant(input, p) == Ok::<_, (Seq<char>, int)>((None::<Seq<char>>, at_name))
            &&& read::item(input, at_name) == Ok::<_, (Seq<char>, int)>(
                (Tree::Text(name), at_field),
            )
            &&& read::item(input, at_field) == Ok::<_, (Seq<char>, int)>((field, at_stop))
            &&& read::marked(input, at_stop, STOP_BYTE) == Ok::<_, (Seq<char>, int)>(
                (true, at_stop + 1),
            )
            &&& at_stop + 1 == p + wire::encoded(
                Tree::Object(seq![(Tree::Text(name), field)]),
            ).len()
        }),
{
    let entries = seq![(Tree::Text(name), field)];
    let start = seq![INDEF_MAP_START];
    let key = wire::encoded(Tree::Text(name));
    let value = wire::encoded(field);
    let stop = seq![STOP_BYTE];
    let payload = wire::object_payload(entries);
    assert(wire::encoded_entries(entries) == key + value) by {
        reveal_with_fuel(wire::encoded_entries, 2);
    }
    assert(payload == start + (key + (value + stop)));
    law_envelope_says_where_it_ends(input, p, payload);
    wire::lemma_envelope_header_len(payload.len() as int);
    assert(input.subrange(p, p + wire::encoded(Tree::Object(entries)).len())[0] == input[p]);
    lemma_stands_split(input, p + 7, start, key + (value + stop));
    lemma_stands_split(input, p + 8, key, value + stop);
    lemma_stands_split(input, p + 8 + key.len(), value, stop);
    lemma_stands_byte(input, p + 8 + key.len() + value.len(), STOP_BYTE);
    law_value_round_trip(input, p + 8, Tree::Text(name));
    law_value_round_trip(input, p + 8 + key.len(), field);
}

/// The number that a double of at least 2 to the power 52 stands for.
pub open spec fn double_value(bits: int) -> int {
    (0x10_0000_0000_0000 + bits % 0x10_0000_0000_0000) * vstd::arithmetic::power2::pow2(
        (bits / 0x10_0000_0000_0000 - 1075) as nat,
    )
}

/// The double that stands for an unsigned integer too large for an `i64` is
/// the nearest there is, and of two that are equally near the one with an even
/// significand.
pub proof fn law_large_integers_become_the_nearest_double(v: u64)
    requires
        v > i64::MAX,
    ensures
        ({
            let bits = wire::nearest_double(v);
            let off = double_value(bits) - v;
            &&& 0 <= bits <= u64::MAX
            &&& -1024 <= off <= 1024
            &&& (off == 1024 || off == -1024) ==> bits % 2 == 0
        }),
{
    let unit: int = 0x10_0000_0000_0000;
    let bits = wire::nearest_double(v);
    let quotient = bits - 1085 * unit;
    vstd::arithmetic::power2::lemma2_to64();
    if quotient < 2 * unit {
        assert(bits / unit == 1086 && bits % unit == quotient - unit);
        assert(double_value(bits) == quotient * 2048);
    } else {
        assert(quotient == 2 * unit);
        assert(bits / unit == 1087 && bits % unit == 0);
        assert(double_value(bits) == unit * 4096);
    }
}

} // verus!
