//! What the encoding of a value is, byte for byte.

use super::be;
use super::consts::{
    CBOR_ENVELOPE_TAG, ENCODED_FALSE, ENCODED_NULL, ENCODED_TRUE,
    EXPECTED_CONVERSION_TO_BASE64_TAG, INDEF_ARRAY_START, INDEF_MAP_START, INFO_1BYTE, INFO_2BYTES,
    INFO_4BYTES, INFO_8BYTES, INITIAL_BYTE_32BIT_BYTESTRING, INITIAL_BYTE_DOUBLE,
    INITIAL_BYTE_ENVELOPE, MAJOR_BYTE_STRING, MAJOR_NEGATIVE, MAJOR_STRING, MAJOR_UNSIGNED,
    STOP_BYTE,
};
use super::consts;
use super::value::Tree;
use vstd::prelude::*;

verus! {

/// A token start: the initial byte for `major` with `value` packed inline, or
/// followed by `value` in 1, 2, 4 or 8 bytes, whichever is the shortest
/// (RFC 7049, section 2.1).
pub open spec fn token(major: int, value: int) -> Seq<u8> {
    if value < 24 {
        seq![consts::initial_byte(major, value)]
    } else if value <= u8::MAX {
        seq![consts::initial_byte(major, INFO_1BYTE as int)] + be::bytes(value, 1)
    } else if value <= u16::MAX {
        seq![consts::initial_byte(major, INFO_2BYTES as int)] + be::bytes(value, 2)
    } else if value <= u32::MAX {
        seq![consts::initial_byte(major, INFO_4BYTES as int)] + be::bytes(value, 4)
    } else {
        seq![consts::initial_byte(major, INFO_8BYTES as int)] + be::bytes(value, 8)
    }
}

/// An integer: major type 0, or major type 1 with `-1 - v` for a negative one.
pub open spec fn encoded_int(v: int) -> Seq<u8> {
    if v >= 0 {
        token(MAJOR_UNSIGNED as int, v)
    } else {
        token(MAJOR_NEGATIVE as int, -1 - v)
    }
}

/// A double, given by its bit pattern.
pub open spec fn encoded_double(bits: u64) -> Seq<u8> {
    seq![INITIAL_BYTE_DOUBLE] + be::bytes(bits as int, 8)
}

/// An unsigned integer: an integer as long as it fits in 63 bits, and
/// otherwise the double nearest to it.
pub open spec fn encoded_unsigned(v: u64) -> Seq<u8> {
    if v <= i64::MAX {
        encoded_int(v as int)
    } else {
        encoded_double(nearest_double(v) as u64)
    }
}

/// Text: a definite-length UTF-8 string.
pub open spec fn encoded_text(s: Seq<char>) -> Seq<u8> {
    token(MAJOR_STRING as int, vstd::utf8::encode_utf8(s).len() as int) + vstd::utf8::encode_utf8(s)
}

/// Binary: tag 22 and a definite-length byte string.
pub open spec fn encoded_bytes(b: Seq<u8>) -> Seq<u8> {
    seq![EXPECTED_CONVERSION_TO_BASE64_TAG] + token(MAJOR_BYTE_STRING as int, b.len() as int) + b
}

/// The seven bytes that stand before a payload of `len` bytes. The length
/// field has four bytes and holds `len` modulo 2 to the power 32.
pub open spec fn envelope_header(len: int) -> Seq<u8> {
    seq![INITIAL_BYTE_ENVELOPE, CBOR_ENVELOPE_TAG, INITIAL_BYTE_32BIT_BYTESTRING] + be::bytes(len, 4)
}

pub proof fn lemma_envelope_header_len(len: int)
    ensures
        envelope_header(len).len() == 7,
{
    be::lemma_bytes_len(len, 4);
}

/// The header of an envelope that has no length yet.
pub proof fn lemma_open_header()
    ensures
        envelope_header(0) == seq![
            INITIAL_BYTE_ENVELOPE,
            CBOR_ENVELOPE_TAG,
            INITIAL_BYTE_32BIT_BYTESTRING,
            0,
            0,
            0,
            0,
        ],
{
    be::lemma_four_bytes(0);
}

/// A payload in its envelope.
pub open spec fn envelope(payload: Seq<u8>) -> Seq<u8> {
    envelope_header(payload.len() as int) + payload
}

/// The bytes inside the envelope of an array.
pub open spec fn array_payload(items: Seq<Tree>) -> Seq<u8>
    decreases items, 1int,
{
    seq![INDEF_ARRAY_START] + encoded_items(items) + seq![STOP_BYTE]
}

/// The bytes inside the envelope of an object.
pub open spec fn object_payload(entries: Seq<(Tree, Tree)>) -> Seq<u8>
    decreases entries, 1int,
{
    seq![INDEF_MAP_START] + encoded_entries(entries) + seq![STOP_BYTE]
}

/// The encoding of a value that is not refused.
pub open spec fn encoded(t: Tree) -> Seq<u8>
    decreases t, 0int,
{
    match t {
        Tree::Null => seq![ENCODED_NULL],
        Tree::Bool(b) => seq![
            if b {
                ENCODED_TRUE
            } else {
                ENCODED_FALSE
            },
        ],
        Tree::Int(v) => encoded_int(v as int),
        Tree::Double(bits) => encoded_double(bits),
        Tree::Text(s) => encoded_text(s),
        Tree::Bytes(b) => encoded_bytes(b),
        Tree::Array(items) => envelope(array_payload(items)),
        Tree::Object(entries) => envelope(object_payload(entries)),
        Tree::TupleVariant(_, _) => seq![],
        Tree::StructVariant(_, _) => seq![],
    }
}

/// The encodings of `items`, one after the other.
pub open spec fn encoded_items(items: Seq<Tree>) -> Seq<u8>
    decreases items, 0int,
{
    if items.len() == 0 {
        seq![]
    } else {
        encoded(items[0]) + encoded_items(items.subrange(1, items.len() as int))
    }
}

/// The encodings of `entries`, one after the other, each key before its value.
pub open spec fn encoded_entries(entries: Seq<(Tree, Tree)>) -> Seq<u8>
    decreases entries, 0int,
{
    if entries.len() == 0 {
        seq![]
    } else {
        let first = entries[0];
        encoded(first.0) + encoded(first.1) + encoded_entries(
            entries.subrange(1, entries.len() as int),
        )
    }
}

/// Why a value cannot be encoded, if it cannot: it holds, anywhere, a variant of
/// an enum with several fields. The first such variant tells.
pub open spec fn refusal(t: Tree) -> Option<Seq<char>>
    decreases t, 0int,
{
    match t {
        Tree::TupleVariant(_, _) => Some("tuple variant unsupported in crdtp dialect"@),
        Tree::StructVariant(_, _) => Some("struct variant unsupported in crdtp dialect"@),
        Tree::Array(items) => refusal_in_items(items),
        Tree::Object(entries) => refusal_in_entries(entries),
        _ => None,
    }
}

pub open spec fn refusal_in_items(items: Seq<Tree>) -> Option<Seq<char>>
    decreases items, 0int,
{
    if items.len() == 0 {
        None
    } else {
        match refusal(items[0]) {
            Some(message) => Some(message),
            None => refusal_in_items(items.subrange(1, items.len() as int)),
        }
    }
}

pub open spec fn refusal_in_entries(entries: Seq<(Tree, Tree)>) -> Option<Seq<char>>
    decreases entries, 0int,
{
    if entries.len() == 0 {
        None
    } else {
        let first = entries[0];
        match (refusal(first.0), refusal(first.1)) {
            (Some(message), _) => Some(message),
            (None, Some(message)) => Some(message),
            (None, None) => refusal_in_entries(entries.subrange(1, entries.len() as int)),
        }
    }
}

/// What stands in the output of a value that is refused: everything before the
/// variant that tells, in envelopes that have no length yet.
pub open spec fn begun(t: Tree) -> Seq<u8>
    decreases t, 0int,
{
    match t {
        Tree::Array(items) => envelope_header(0) + seq![INDEF_ARRAY_START] + begun_items(items),
        Tree::Object(entries) => envelope_header(0) + seq![INDEF_MAP_START] + begun_entries(
            entries,
        ),
        _ => seq![],
    }
}

pub open spec fn begun_items(items: Seq<Tree>) -> Seq<u8>
    decreases items, 0int,
{
    if items.len() == 0 {
        seq![]
    } else if refusal(items[0]) is Some {
        begun(items[0])
    } else {
        encoded(items[0]) + begun_items(items.subrange(1, items.len() as int))
    }
}

pub open spec fn begun_entries(entries: Seq<(Tree, Tree)>) -> Seq<u8>
    decreases entries, 0int,
{
    if entries.len() == 0 {
        seq![]
    } else {
        let first = entries[0];
        if refusal(first.0) is Some {
            begun(first.0)
        } else if refusal(first.1) is Some {
            encoded(first.0) + begun(first.1)
        } else {
            encoded(first.0) + encoded(first.1) + begun_entries(
                entries.subrange(1, entries.len() as int),
            )
        }
    }
}

/// The bit pattern of the double nearest to `v`, ties to even, for `v` of at
/// least 2 to the power 63. There the doubles are the multiples of 2048.
pub open spec fn nearest_double(v: u64) -> int {
    let down = v as int / 2048;
    let rest = v as int % 2048;
    let quotient = if rest < 1024 || (rest == 1024 && down % 2 == 0) {
        down
    } else {
        down + 1
    };
    // The biased exponent is 1086, and the leading bit of the quotient is
    // not stored.
    1085 * 0x10_0000_0000_0000 + quotient
}

/// The value is not refused, and every envelope in its encoding has a payload
/// whose length fits in the four bytes of its length field.
pub open spec fn fits(t: Tree) -> bool
    decreases t, 1int,
{
    &&& parts_fit(t)
    &&& match t {
        Tree::Array(items) => array_payload(items).len() <= u32::MAX,
        Tree::Object(entries) => object_payload(entries).len() <= u32::MAX,
        _ => true,
    }
}

/// The same of every envelope but the outermost.
pub open spec fn parts_fit(t: Tree) -> bool
    decreases t, 0int,
{
    match t {
        Tree::Array(items) => items_fit(items),
        Tree::Object(entries) => entries_fit(entries),
        Tree::TupleVariant(_, _) => false,
        Tree::StructVariant(_, _) => false,
        _ => true,
    }
}

pub open spec fn items_fit(items: Seq<Tree>) -> bool
    decreases items, 0int,
{
    items.len() == 0 || (fits(items[0]) && items_fit(items.subrange(1, items.len() as int)))
}

pub open spec fn entries_fit(entries: Seq<(Tree, Tree)>) -> bool
    decreases entries, 0int,
{
    entries.len() == 0 || ({
        let first = entries[0];
        fits(first.0) && fits(first.1) && entries_fit(
            entries.subrange(1, entries.len() as int),
        )
    })
}

} // verus!
