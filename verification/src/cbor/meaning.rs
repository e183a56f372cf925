//! What the encoder writes, byte by byte.
//!
//! The laws here, and those in [`super::reading`], speak of single bytes and of
//! plain arithmetic on them. Those in [`super::laws`] tie the encoder to the
//! decoder; these tie both to the bytes that the browser writes and expects.

use super::be;
use super::laws;
use super::value::Tree;
use super::wire;
use vstd::prelude::*;

verus! {

/// The byte at `i` of a big-endian number is its digit to the base 256 that has
/// `width - 1 - i` digits behind it.
pub proof fn law_big_endian_digits(value: int, width: nat, i: int)
    requires
        0 <= value,
        0 <= i < width,
    ensures
        be::bytes(value, width).len() == width,
        be::bytes(value, width)[i] == value / vstd::arithmetic::power::pow(
            256,
            (width - 1 - i) as nat,
        ) % 256,
    decreases width,
{
    let behind = (width - 1 - i) as nat;
    be::lemma_bytes_len(value, width);
    be::lemma_bytes_len(value / 256, (width - 1) as nat);
    reveal(vstd::arithmetic::power::pow);
    if i < width - 1 {
        let scale = vstd::arithmetic::power::pow(256, (behind - 1) as nat);
        law_big_endian_digits(value / 256, (width - 1) as nat, i);
        vstd::arithmetic::power::lemma_pow_positive(256, (behind - 1) as nat);
        vstd::arithmetic::div_mod::lemma_div_denominator(value, 256, scale);
        assert(vstd::arithmetic::power::pow(256, behind) == 256 * scale);
    } else {
        assert(vstd::arithmetic::power::pow(256, 0) == 1);
    }
}

/// The number that bytes spell is below 256 to the power of how many there are,
/// and the bytes are its digits to the base 256.
pub proof fn law_big_endian_number(digits: Seq<u8>, i: int)
    requires
        0 <= i < digits.len(),
    ensures
        0 <= be::number(digits) < vstd::arithmetic::power::pow(256, digits.len()),
        digits[i] == be::number(digits) / vstd::arithmetic::power::pow(
            256,
            (digits.len() - 1 - i) as nat,
        ) % 256,
    decreases digits.len(),
{
    let n = be::number(digits);
    let shorter = digits.drop_last();
    let behind = (digits.len() - 1 - i) as nat;
    reveal(vstd::arithmetic::power::pow);
    be::lemma_number_bound(digits);
    lemma_pow256(digits.len());
    assert(n / 256 == be::number(shorter));
    if i < digits.len() - 1 {
        let scale = vstd::arithmetic::power::pow(256, (behind - 1) as nat);
        law_big_endian_number(shorter, i);
        vstd::arithmetic::power::lemma_pow_positive(256, (behind - 1) as nat);
        vstd::arithmetic::div_mod::lemma_div_denominator(n, 256, scale);
        assert(vstd::arithmetic::power::pow(256, behind) == 256 * scale);
    } else {
        assert(vstd::arithmetic::power::pow(256, 0) == 1);
    }
}

proof fn lemma_pow256(width: nat)
    ensures
        be::pow256(width) == vstd::arithmetic::power::pow(256, width),
    decreases width,
{
    reveal(vstd::arithmetic::power::pow);
    if width > 0 {
        lemma_pow256((width - 1) as nat);
    }
}

proof fn lemma_few_bytes(n: int)
    requires
        0 <= n,
    ensures
        be::bytes(n, 1) == seq![(n % 256) as u8],
        be::bytes(n, 2) == seq![(n / 0x100 % 256) as u8, (n % 256) as u8],
        be::bytes(n, 4) == seq![
            (n / 0x100_0000 % 256) as u8,
            (n / 0x1_0000 % 256) as u8,
            (n / 0x100 % 256) as u8,
            (n % 256) as u8,
        ],
        be::bytes(n, 8) == seq![
            (n / 0x100_0000_0000_0000 % 256) as u8,
            (n / 0x1_0000_0000_0000 % 256) as u8,
            (n / 0x100_0000_0000 % 256) as u8,
            (n / 0x1_0000_0000 % 256) as u8,
            (n / 0x100_0000 % 256) as u8,
            (n / 0x1_0000 % 256) as u8,
            (n / 0x100 % 256) as u8,
            (n % 256) as u8,
        ],
{
    be::lemma_four_bytes(n);
    let high = n / 0x1_0000_0000;
    be::lemma_four_bytes(high);
    reveal_with_fuel(be::bytes, 9);
    assert(n / 256 / 256 / 256 / 256 == high);
    assert(be::bytes(n, 8) == be::bytes(high, 4) + be::bytes(n, 4));
    assert(high / 0x100_0000 == n / 0x100_0000_0000_0000);
    assert(high / 0x1_0000 == n / 0x1_0000_0000_0000);
    assert(high / 0x100 == n / 0x100_0000_0000);
}

/// A token start: the major type in the high three bits of the first byte, and
/// the value in its low five bits or, announced there, in the fewest of 1, 2, 4
/// or 8 bytes behind it.
pub proof fn law_token_bytes(major: int, n: int)
    requires
        0 <= major < 8,
        0 <= n <= u64::MAX,
    ensures
        n < 24 ==> wire::token(major, n) == seq![(major * 32 + n) as u8],
        24 <= n < 0x100 ==> wire::token(major, n) == seq![(major * 32 + 24) as u8, n as u8],
        0x100 <= n < 0x1_0000 ==> wire::token(major, n) == seq![
            (major * 32 + 25) as u8,
            (n / 0x100) as u8,
            (n % 256) as u8,
        ],
        0x1_0000 <= n < 0x1_0000_0000 ==> wire::token(major, n) == seq![
            (major * 32 + 26) as u8,
            (n / 0x100_0000) as u8,
            (n / 0x1_0000 % 256) as u8,
            (n / 0x100 % 256) as u8,
            (n % 256) as u8,
        ],
        0x1_0000_0000 <= n ==> wire::token(major, n) == seq![
            (major * 32 + 27) as u8,
            (n / 0x100_0000_0000_0000) as u8,
            (n / 0x1_0000_0000_0000 % 256) as u8,
            (n / 0x100_0000_0000 % 256) as u8,
            (n / 0x1_0000_0000 % 256) as u8,
            (n / 0x100_0000 % 256) as u8,
            (n / 0x1_0000 % 256) as u8,
            (n / 0x100 % 256) as u8,
            (n % 256) as u8,
        ],
{
    lemma_few_bytes(n);
}

/// An integer is one token: major type 0 with the integer itself, or major type
/// 1 with how far it lies below -1, in the shortest form that holds it.
pub proof fn law_integer_bytes(v: i64)
    ensures
        ({
            let bytes = wire::encoded(Tree::Int(v));
            let high: int = if v < 0 {
                0x20
            } else {
                0
            };
            let n: int = if v < 0 {
                -1 - v
            } else {
                v as int
            };
            &&& bytes == wire::encoded_int(v as int)
            &&& n < 24 ==> bytes == seq![(high + n) as u8]
            &&& 24 <= n < 0x100 ==> bytes == seq![(high + 0x18) as u8, n as u8]
            &&& 0x100 <= n < 0x1_0000 ==> bytes == seq![
                (high + 0x19) as u8,
                (n / 0x100) as u8,
                (n % 256) as u8,
            ]
            &&& 0x1_0000 <= n < 0x1_0000_0000 ==> bytes == seq![
                (high + 0x1A) as u8,
                (n / 0x100_0000) as u8,
                (n / 0x1_0000 % 256) as u8,
                (n / 0x100 % 256) as u8,
                (n % 256) as u8,
            ]
            &&& 0x1_0000_0000 <= n ==> bytes == seq![
                (high + 0x1B) as u8,
                (n / 0x100_0000_0000_0000) as u8,
                (n / 0x1_0000_0000_0000 % 256) as u8,
                (n / 0x100_0000_0000 % 256) as u8,
                (n / 0x1_0000_0000 % 256) as u8,
                (n / 0x100_0000 % 256) as u8,
                (n / 0x1_0000 % 256) as u8,
                (n / 0x100 % 256) as u8,
                (n % 256) as u8,
            ]
        }),
{
    if v < 0 {
        law_token_bytes(1, -1 - v);
    } else {
        law_token_bytes(0, v as int);
    }
}

/// A double is the byte 0xFB and the eight bytes of its bit pattern, most
/// significant first, whatever its sign.
pub proof fn law_double_bytes(bits: u64)
    ensures
        wire::encoded(Tree::Double(bits)) == wire::encoded_double(bits),
        wire::encoded(Tree::Double(bits)) == seq![
            0xFBu8,
            (bits as int / 0x100_0000_0000_0000) as u8,
            (bits as int / 0x1_0000_0000_0000 % 256) as u8,
            (bits as int / 0x100_0000_0000 % 256) as u8,
            (bits as int / 0x1_0000_0000 % 256) as u8,
            (bits as int / 0x100_0000 % 256) as u8,
            (bits as int / 0x1_0000 % 256) as u8,
            (bits as int / 0x100 % 256) as u8,
            (bits as int % 256) as u8,
        ],
{
    lemma_few_bytes(bits as int);
}

/// Null and the truth values are one byte each.
pub proof fn law_simple_bytes()
    ensures
        wire::encoded(Tree::Null) == seq![0xF6u8],
        wire::encoded(Tree::Bool(true)) == seq![0xF5u8],
        wire::encoded(Tree::Bool(false)) == seq![0xF4u8],
{
}

/// Text is a token of major type 3 with the number of its UTF-8 bytes, and then
/// these bytes.
pub proof fn law_text_bytes(s: Seq<char>)
    requires
        vstd::utf8::encode_utf8(s).len() <= u64::MAX,
    ensures
        ({
            let bytes = wire::encoded(Tree::Text(s));
            let utf8 = vstd::utf8::encode_utf8(s);
            let n = utf8.len() as int;
            &&& bytes == wire::encoded_text(s)
            &&& n < 24 ==> bytes == seq![(0x60 + n) as u8] + utf8
            &&& 24 <= n < 0x100 ==> bytes == seq![0x78u8, n as u8] + utf8
            &&& 0x100 <= n < 0x1_0000 ==> bytes == seq![
                0x79u8,
                (n / 0x100) as u8,
                (n % 256) as u8,
            ] + utf8
            &&& 0x1_0000 <= n < 0x1_0000_0000 ==> bytes == seq![
                0x7Au8,
                (n / 0x100_0000) as u8,
                (n / 0x1_0000 % 256) as u8,
                (n / 0x100 % 256) as u8,
                (n % 256) as u8,
            ] + utf8
            &&& 0x1_0000_0000 <= n ==> bytes == seq![
                0x7Bu8,
                (n / 0x100_0000_0000_0000) as u8,
                (n / 0x1_0000_0000_0000 % 256) as u8,
                (n / 0x100_0000_0000 % 256) as u8,
                (n / 0x1_0000_0000 % 256) as u8,
                (n / 0x100_0000 % 256) as u8,
                (n / 0x1_0000 % 256) as u8,
                (n / 0x100 % 256) as u8,
                (n % 256) as u8,
            ] + utf8
        }),
{
    law_token_bytes(3, vstd::utf8::encode_utf8(s).len() as int);
}

/// Binary is the byte 0xD6 (tag 22), a token of major type 2 with the number of
/// bytes, and then the bytes.
pub proof fn law_binary_bytes(b: Seq<u8>)
    requires
        b.len() <= u64::MAX,
    ensures
        ({
            let bytes = wire::encoded(Tree::Bytes(b));
            let n = b.len() as int;
            &&& bytes == wire::encoded_bytes(b)
            &&& n < 24 ==> bytes == seq![0xD6u8, (0x40 + n) as u8] + b
            &&& 24 <= n < 0x100 ==> bytes == seq![0xD6u8, 0x58, n as u8] + b
            &&& 0x100 <= n < 0x1_0000 ==> bytes == seq![
                0xD6u8,
                0x59,
                (n / 0x100) as u8,
                (n % 256) as u8,
            ] + b
            &&& 0x1_0000 <= n < 0x1_0000_0000 ==> bytes == seq![
                0xD6u8,
                0x5A,
                (n / 0x100_0000) as u8,
                (n / 0x1_0000 % 256) as u8,
                (n / 0x100 % 256) as u8,
                (n % 256) as u8,
            ] + b
            &&& 0x1_0000_0000 <= n ==> bytes == seq![
                0xD6u8,
                0x5B,
                (n / 0x100_0000_0000_0000) as u8,
                (n / 0x1_0000_0000_0000 % 256) as u8,
                (n / 0x100_0000_0000 % 256) as u8,
                (n / 0x1_0000_0000 % 256) as u8,
                (n / 0x100_0000 % 256) as u8,
                (n / 0x1_0000 % 256) as u8,
                (n / 0x100 % 256) as u8,
                (n % 256) as u8,
            ] + b
        }),
{
    law_token_bytes(2, b.len() as int);
}

/// An envelope is 0xD8 0x18 0x5A, the length of what is inside in four bytes,
/// most significant first, and what is inside.
pub proof fn law_envelope_bytes(payload: Seq<u8>)
    ensures
        ({
            let n = payload.len() as int;
            let header = seq![
                0xD8u8,
                0x18,
                0x5A,
                (n / 0x100_0000 % 256) as u8,
                (n / 0x1_0000 % 256) as u8,
                (n / 0x100 % 256) as u8,
                (n % 256) as u8,
            ];
            &&& wire::envelope_header(n) == header
            &&& wire::envelope(payload) == header + payload
        }),
{
    lemma_few_bytes(payload.len() as int);
}

/// An array is an envelope around 0x9F, its items and 0xFF. An array without
/// items has nothing in between, and one more item adds its encoding at the end.
pub proof fn law_array_bytes(items: Seq<Tree>, t: Tree)
    ensures
        wire::encoded(Tree::Array(seq![])) == seq![
            0xD8u8,
            0x18,
            0x5A,
            0,
            0,
            0,
            2,
            0x9F,
            0xFF,
        ],
        ({
            let before = wire::encoded(Tree::Array(items));
            let after = wire::encoded(Tree::Array(items.push(t)));
            let inside = before.subrange(8, before.len() - 1);
            let n = after.len() - 7;
            &&& before.len() >= 9
            &&& inside == wire::encoded_items(items)
            &&& wire::encoded_items(items.push(t)) == inside + wire::encoded(t)
            &&& after == seq![
                0xD8u8,
                0x18,
                0x5A,
                (n / 0x100_0000 % 256) as u8,
                (n / 0x1_0000 % 256) as u8,
                (n / 0x100 % 256) as u8,
                (n % 256) as u8,
                0x9F,
            ] + inside + wire::encoded(t) + seq![0xFFu8]
        }),
{
    let none = Seq::<Tree>::empty();
    assert(wire::array_payload(none) == seq![0x9Fu8, 0xFF]);
    law_envelope_bytes(wire::array_payload(none));
    law_envelope_bytes(wire::array_payload(items));
    law_envelope_bytes(wire::array_payload(items.push(t)));
    laws::law_items_one_by_one(items, t);
    let before = wire::encoded(Tree::Array(items));
    assert(before.subrange(8, before.len() - 1) == wire::encoded_items(items));
}

/// An object is an envelope around 0xBF, its entries and 0xFF. An object without
/// entries has nothing in between, and one more entry adds the encodings of its
/// key and of its value at the end.
pub proof fn law_object_bytes(entries: Seq<(Tree, Tree)>, key: Tree, value: Tree)
    ensures
        wire::encoded(Tree::Object(seq![])) == seq![
            0xD8u8,
            0x18,
            0x5A,
            0,
            0,
            0,
            2,
            0xBF,
            0xFF,
        ],
        ({
            let before = wire::encoded(Tree::Object(entries));
            let after = wire::encoded(Tree::Object(entries.push((key, value))));
            let inside = before.subrange(8, before.len() - 1);
            let n = after.len() - 7;
            &&& before.len() >= 9
            &&& inside == wire::encoded_entries(entries)
            &&& wire::encoded_entries(entries.push((key, value))) == inside + wire::encoded(key)
                + wire::encoded(value)
            &&& after == seq![
                0xD8u8,
                0x18,
                0x5A,
                (n / 0x100_0000 % 256) as u8,
                (n / 0x1_0000 % 256) as u8,
                (n / 0x100 % 256) as u8,
                (n % 256) as u8,
                0xBF,
            ] + inside + wire::encoded(key) + wire::encoded(value) + seq![0xFFu8]
        }),
{
    let none = Seq::<(Tree, Tree)>::empty();
    assert(wire::object_payload(none) == seq![0xBFu8, 0xFF]);
    law_envelope_bytes(wire::object_payload(none));
    law_envelope_bytes(wire::object_payload(entries));
    law_envelope_bytes(wire::object_payload(entries.push((key, value))));
    laws::law_entries_one_by_one(entries, key, value);
    let before = wire::encoded(Tree::Object(entries));
    assert(before.subrange(8, before.len() - 1) == wire::encoded_entries(entries));
}

/// An unsigned integer is written as the integer that it is, as long as that
/// fits in 63 bits; and otherwise as a double whose value is the nearest to it
/// there is, and of two equally near the even one.
pub proof fn law_unsigned_bytes(v: u64)
    ensures
        v <= 0x7FFF_FFFF_FFFF_FFFF ==> wire::encoded_unsigned(v) == wire::encoded(
            Tree::Int(v as i64),
        ),
        v > 0x7FFF_FFFF_FFFF_FFFF ==> ({
            let bits = wire::nearest_double(v);
            let value = (0x10_0000_0000_0000 + bits % 0x10_0000_0000_0000)
                * vstd::arithmetic::power2::pow2((bits / 0x10_0000_0000_0000 - 1075) as nat);
            &&& 0x43E0_0000_0000_0000 <= bits <= 0x43F0_0000_0000_0000
            &&& wire::encoded_unsigned(v) == wire::encoded(Tree::Double(bits as u64))
            &&& -1024 <= value - v <= 1024
            &&& (value - v == 1024 || value - v == -1024) ==> bits % 2 == 0
        }),
{
    if v > 0x7FFF_FFFF_FFFF_FFFF {
        laws::law_large_integers_become_the_nearest_double(v);
    }
}

/// Variants with several fields are refused, each kind in its own words, with
/// nothing written. What holds no other values is never refused.
pub proof fn law_what_is_refused(t: Tree)
    ensures
        t is TupleVariant ==> wire::refusal(t) == Some(
            "tuple variant unsupported in crdtp dialect"@,
        ) && wire::begun(t) == Seq::<u8>::empty(),
        t is StructVariant ==> wire::refusal(t) == Some(
            "struct variant unsupported in crdtp dialect"@,
        ) && wire::begun(t) == Seq::<u8>::empty(),
        t is Null || t is Bool || t is Int || t is Double || t is Text || t is Bytes
            ==> wire::refusal(t) is None,
{
}

/// An array is refused with the first of its items that is: one without items is
/// not, and one more item changes nothing if the array was refused already, and
/// otherwise decides. What was written before then stands in an envelope without
/// a length.
pub proof fn law_refused_array(items: Seq<Tree>, t: Tree)
    ensures
        wire::refusal(Tree::Array(seq![])) is None,
        wire::refusal(Tree::Array(items)) == wire::refusal_in_items(items),
        ({
            let before = Tree::Array(items);
            let after = Tree::Array(items.push(t));
            &&& wire::refusal(before) is Some ==> wire::refusal(after) == wire::refusal(before)
                && wire::begun(after) == wire::begun(before)
            &&& wire::refusal(before) is None ==> wire::refusal(after) == wire::refusal(t)
            &&& wire::refusal(before) is None && wire::refusal(t) is Some ==> wire::begun(after)
                == seq![0xD8u8, 0x18, 0x5A, 0, 0, 0, 0, 0x9F] + wire::encoded_items(items)
                + wire::begun(t)
        }),
        wire::begun(Tree::Array(items)) == seq![0xD8u8, 0x18, 0x5A, 0, 0, 0, 0, 0x9F]
            + wire::begun_items(items),
    decreases items.len(),
{
    wire::lemma_open_header();
    reveal_with_fuel(wire::refusal, 2);
    let more = items.push(t);
    let start = seq![0xD8u8, 0x18, 0x5A, 0, 0, 0, 0, 0x9F];
    assert(wire::begun(Tree::Array(items)) == start + wire::begun_items(items));
    assert(wire::begun(Tree::Array(more)) == start + wire::begun_items(more));
    if items.len() == 0 {
        assert(more[0] == t);
        assert(more.subrange(1, more.len() as int) == Seq::<Tree>::empty());
        assert(wire::refusal_in_items(Seq::<Tree>::empty()) is None);
        assert(wire::refusal(t) is Some ==> wire::begun_items(more) == wire::begun(t));
    } else {
        let others = items.subrange(1, items.len() as int);
        law_refused_array(others, t);
        assert(more[0] == items[0]);
        assert(more.subrange(1, more.len() as int) == others.push(t));
        let a = wire::begun(Tree::Array(others));
        let b = wire::begun(Tree::Array(others.push(t)));
        assert(a.skip(8) == wire::begun_items(others));
        assert(b == start + wire::begun_items(others.push(t))) by {
            lemma_begun_array(others.push(t));
        }
        assert(b.skip(8) == wire::begun_items(others.push(t)));
        if wire::refusal(items[0]) is None && wire::refusal_in_items(others) is None
            && wire::refusal(t) is Some {
            assert(b == start + wire::encoded_items(others) + wire::begun(t));
            assert(b.skip(8) == wire::encoded_items(others) + wire::begun(t));
        }
    }
}

proof fn lemma_begun_array(items: Seq<Tree>)
    ensures
        wire::begun(Tree::Array(items)) == seq![0xD8u8, 0x18, 0x5A, 0, 0, 0, 0, 0x9F]
            + wire::begun_items(items),
{
    wire::lemma_open_header();
}

proof fn lemma_begun_object(entries: Seq<(Tree, Tree)>)
    ensures
        wire::begun(Tree::Object(entries)) == seq![0xD8u8, 0x18, 0x5A, 0, 0, 0, 0, 0xBF]
            + wire::begun_entries(entries),
{
    wire::lemma_open_header();
}

/// An object is refused with the first of its keys and values that is, each key
/// coming before its value, as an array is with its items.
pub proof fn law_refused_object(entries: Seq<(Tree, Tree)>, key: Tree, value: Tree)
    ensures
        wire::refusal(Tree::Object(seq![])) is None,
        wire::refusal(Tree::Object(entries)) == wire::refusal_in_entries(entries),
        ({
            let start = seq![0xD8u8, 0x18, 0x5A, 0, 0, 0, 0, 0xBF];
            let before = Tree::Object(entries);
            let after = Tree::Object(entries.push((key, value)));
            &&& wire::refusal(before) is Some ==> wire::refusal(after) == wire::refusal(before)
                && wire::begun(after) == wire::begun(before)
            &&& wire::refusal(before) is None && wire::refusal(key) is Some ==> wire::refusal(after)
                == wire::refusal(key) && wire::begun(after) == start + wire::encoded_entries(
                entries,
            ) + wire::begun(key)
            &&& wire::refusal(before) is None && wire::refusal(key) is None ==> wire::refusal(after)
                == wire::refusal(value)
            &&& wire::refusal(before) is None && wire::refusal(key) is None && wire::refusal(
                value,
            ) is Some ==> wire::begun(after) == start + wire::encoded_entries(entries)
                + wire::encoded(key) + wire::begun(value)
        }),
        wire::begun(Tree::Object(entries)) == seq![0xD8u8, 0x18, 0x5A, 0, 0, 0, 0, 0xBF]
            + wire::begun_entries(entries),
    decreases entries.len(),
{
    reveal_with_fuel(wire::refusal, 2);
    let entry = (key, value);
    let more = entries.push(entry);
    let start = seq![0xD8u8, 0x18, 0x5A, 0, 0, 0, 0, 0xBF];
    lemma_begun_object(entries);
    lemma_begun_object(more);
    if entries.len() == 0 {
        assert(more[0] == entry);
        assert(more.subrange(1, more.len() as int) == Seq::<(Tree, Tree)>::empty());
        assert(wire::refusal_in_entries(Seq::<(Tree, Tree)>::empty()) is None);
        assert(wire::encoded_entries(entries) == Seq::<u8>::empty());
    } else {
        let others = entries.subrange(1, entries.len() as int);
        let first = entries[0];
        law_refused_object(others, key, value);
        lemma_begun_object(others);
        lemma_begun_object(others.push(entry));
        assert(more[0] == first);
        assert(more.subrange(1, more.len() as int) == others.push(entry));
        let a = wire::begun(Tree::Object(others));
        let b = wire::begun(Tree::Object(others.push(entry)));
        assert(a.skip(8) == wire::begun_entries(others));
        assert(b.skip(8) == wire::begun_entries(others.push(entry)));
        if wire::refusal(first.0) is None && wire::refusal(first.1) is None
            && wire::refusal_in_entries(others) is None {
            if wire::refusal(key) is Some {
                assert(b.skip(8) == wire::encoded_entries(others) + wire::begun(key));
            } else if wire::refusal(value) is Some {
                assert(b.skip(8) == wire::encoded_entries(others) + wire::encoded(key)
                    + wire::begun(value));
            }
        }
    }
}

/// Which values fit: every one without others inside that is not refused, and
/// every array and object whose parts fit and whose envelope holds fewer than 2
/// to the power 32 bytes.
pub proof fn law_what_fits(t: Tree)
    ensures
        t is Null || t is Bool || t is Int || t is Double || t is Text || t is Bytes ==> wire::fits(
            t,
        ) && wire::parts_fit(t),
        t is TupleVariant || t is StructVariant ==> !wire::fits(t) && !wire::parts_fit(t),
        t matches Tree::Array(items) ==> (wire::parts_fit(t) <==> forall|i: int|
            0 <= i < items.len() ==> wire::fits(#[trigger] items[i])),
        t matches Tree::Object(entries) ==> (wire::parts_fit(t) <==> forall|i: int|
            0 <= i < entries.len() ==> wire::fits((#[trigger] entries[i]).0) && wire::fits(
                entries[i].1,
            )),
        t is Array || t is Object ==> (wire::fits(t) <==> wire::parts_fit(t) && wire::encoded(
            t,
        ).len() - 7 <= 0xFFFF_FFFF),
{
    reveal_with_fuel(wire::fits, 2);
    match t {
        Tree::Array(items) => {
            wire::lemma_envelope_header_len(wire::array_payload(items).len() as int);
            lemma_items_fit(items);
        },
        Tree::Object(entries) => {
            wire::lemma_envelope_header_len(wire::object_payload(entries).len() as int);
            lemma_entries_fit(entries);
        },
        _ => {},
    }
}

proof fn lemma_items_fit(items: Seq<Tree>)
    ensures
        wire::items_fit(items) <==> forall|i: int|
            0 <= i < items.len() ==> wire::fits(#[trigger] items[i]),
    decreases items.len(),
{
    if items.len() > 0 {
        let others = items.subrange(1, items.len() as int);
        lemma_items_fit(others);
        assert(forall|i: int| 0 <= i < others.len() ==> others[i] == items[i + 1]);
        assert(forall|i: int| 1 <= i < items.len() ==> items[i] == others[i - 1]);
    }
}

proof fn lemma_entries_fit(entries: Seq<(Tree, Tree)>)
    ensures
        wire::entries_fit(entries) <==> forall|i: int|
            0 <= i < entries.len() ==> wire::fits((#[trigger] entries[i]).0) && wire::fits(
                entries[i].1,
            ),
    decreases entries.len(),
{
    if entries.len() > 0 {
        let others = entries.subrange(1, entries.len() as int);
        lemma_entries_fit(others);
        assert(forall|i: int| 0 <= i < others.len() ==> others[i] == entries[i + 1]);
        assert(forall|i: int| 1 <= i < entries.len() ==> entries[i] == others[i - 1]);
    }
}

} // verus!
