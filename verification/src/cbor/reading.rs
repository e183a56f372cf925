//! What reading gives, byte by byte.

use super::be;
use super::consts;
use super::read;
use super::read::Event;
use super::value::Tree;
use crate::text;
use vstd::prelude::*;

verus! {

/// An initial byte is its major type times 32 plus its additional information,
/// which is below 32.
pub proof fn law_initial_byte(b: u8)
    ensures
        consts::major_of(b) * 32 + consts::info_of(b) == b,
        0 <= consts::info_of(b) < 32,
        forall|major: int, info: int|
            0 <= major < 8 && 0 <= info < 32 ==> #[trigger] consts::initial_byte(major, info)
                == major * 32 + info,
{
}

/// A message begins with the bytes 0xD8 0x18 0x5A or 0xD8 0x5A.
pub proof fn law_message_start(msg: Seq<u8>)
    ensures
        consts::looks_like_cbor(msg) <==> (msg.len() >= 3 && msg.take(3) == seq![0xD8u8, 0x18, 0x5A])
            || (msg.len() >= 2 && msg.take(2) == seq![0xD8u8, 0x5A]),
{
    if consts::looks_like_cbor(msg) {
        if msg[1] == 0x5A {
            assert(msg.take(2) == seq![0xD8u8, 0x5A]);
        } else {
            assert(msg.take(3) == seq![0xD8u8, 0x18, 0x5A]);
        }
    }
    if msg.len() >= 3 && msg.take(3) == seq![0xD8u8, 0x18, 0x5A] {
        assert(msg[0] == msg.take(3)[0] && msg[1] == msg.take(3)[1] && msg[2] == msg.take(3)[2]);
    }
    if msg.len() >= 2 && msg.take(2) == seq![0xD8u8, 0x5A] {
        assert(msg[0] == msg.take(2)[0] && msg[1] == msg.take(2)[1]);
    }
}

/// What it means that a read gives a value, or fails, and leaves the cursor
/// somewhere; and where a cursor can be.
pub proof fn law_results<T>(want: read::Read<T>, v: T, message: Seq<char>, pos: usize, p: int)
    ensures
        read::gives(want, v, pos) <==> want is Ok && want->Ok_0.0 == v && want->Ok_0.1 == pos,
        read::fails(want, message, pos) <==> want is Err && want->Err_0.0 == message
            && want->Err_0.1 == pos,
        p <= usize::MAX ==> read::clamped(p) == p,
        p > usize::MAX ==> read::clamped(p) == usize::MAX,
{
}

/// The next bytes are those behind the cursor, one by one, if they are all
/// there.
pub proof fn law_next_bytes(input: Seq<u8>, p: int, n: int)
    requires
        0 <= p,
        0 <= n,
    ensures
        p + n > input.len() ==> read::chunk(input, p, n) == Err::<(Seq<u8>, int), _>(
            ("unexpected EOF"@, p),
        ),
        p + n <= input.len() ==> ({
            &&& read::chunk(input, p, n) matches Ok((bytes, q))
            &&& q == p + n
            &&& bytes.len() == n
            &&& forall|i: int| 0 <= i < n ==> #[trigger] bytes[i] == input[p + i]
        }),
{
}

proof fn lemma_few_digits(d: Seq<u8>)
    ensures
        d.len() == 1 ==> be::number(d) == d[0],
        d.len() == 2 ==> be::number(d) == d[0] * 0x100 + d[1],
        d.len() == 4 ==> be::number(d) == d[0] * 0x100_0000 + d[1] * 0x1_0000 + d[2] * 0x100 + d[3],
        d.len() == 8 ==> be::number(d) == d[0] * 0x100_0000_0000_0000 + d[1] * 0x1_0000_0000_0000
            + d[2] * 0x100_0000_0000 + d[3] * 0x1_0000_0000 + d[4] * 0x100_0000 + d[5] * 0x1_0000
            + d[6] * 0x100 + d[7],
{
    if d.len() == 1 {
        reveal_with_fuel(be::number, 2);
    } else if d.len() == 2 {
        reveal_with_fuel(be::number, 3);
    } else if d.len() == 4 {
        reveal_with_fuel(be::number, 5);
    } else if d.len() == 8 {
        reveal_with_fuel(be::number, 9);
    }
}

/// A token start: the major type is in the high three bits of the first byte;
/// the value is in its low five bits if these are below 24, or else, most
/// significant byte first, in the bytes that they announce.
pub proof fn law_token_read(input: Seq<u8>, p: int)
    requires
        0 <= p,
    ensures
        p >= input.len() ==> read::token(input, p) == Err::<((u8, u64), int), _>(
            ("unexpected EOF"@, p),
        ),
        p < input.len() ==> ({
            let r = read::token(input, p);
            let b = input[p] as int;
            let left = input.len() - (p + 1);
            let short = Err::<((u8, u64), int), _>(("unexpected EOF"@, p + 1));
            &&& b % 32 < 24 ==> r == Ok::<_, (Seq<char>, int)>(
                (((b / 32) as u8, (b % 32) as u64), p + 1),
            )
            &&& b % 32 == 24 && left < 1 ==> r == short
            &&& b % 32 == 24 && left >= 1 ==> r == Ok::<_, (Seq<char>, int)>(
                (((b / 32) as u8, input[p + 1] as u64), p + 2),
            )
            &&& b % 32 == 25 && left < 2 ==> r == short
            &&& b % 32 == 25 && left >= 2 ==> r == Ok::<_, (Seq<char>, int)>(
                (((b / 32) as u8, (input[p + 1] * 0x100 + input[p + 2]) as u64), p + 3),
            )
            &&& b % 32 == 26 && left < 4 ==> r == short
            &&& b % 32 == 26 && left >= 4 ==> r == Ok::<_, (Seq<char>, int)>(
                (
                    (
                        (b / 32) as u8,
                        (input[p + 1] * 0x100_0000 + input[p + 2] * 0x1_0000 + input[p + 3] * 0x100
                            + input[p + 4]) as u64,
                    ),
                    p + 5,
                ),
            )
            &&& b % 32 == 27 && left < 8 ==> r == short
            &&& b % 32 == 27 && left >= 8 ==> r == Ok::<_, (Seq<char>, int)>(
                (
                    (
                        (b / 32) as u8,
                        (input[p + 1] * 0x100_0000_0000_0000 + input[p + 2] * 0x1_0000_0000_0000
                            + input[p + 3] * 0x100_0000_0000 + input[p + 4] * 0x1_0000_0000
                            + input[p + 5] * 0x100_0000 + input[p + 6] * 0x1_0000 + input[p + 7]
                            * 0x100 + input[p + 8]) as u64,
                    ),
                    p + 9,
                ),
            )
            &&& 28 <= b % 32 < 31 ==> r == Err::<((u8, u64), int), _>(
                ("bad additional info "@ + text::decimal(b % 32), p + 1),
            )
            &&& b % 32 == 31 ==> r == Ok::<_, (Seq<char>, int)>(
                (((b / 32) as u8, 0xFFFF_FFFF_FFFF_FFFFu64), p + 1),
            )
        }),
{
    if p < input.len() {
        let left = input.len() - (p + 1);
        if left >= 1 {
            lemma_few_digits(input.subrange(p + 1, p + 2));
        }
        if left >= 2 {
            lemma_few_digits(input.subrange(p + 1, p + 3));
        }
        if left >= 4 {
            lemma_few_digits(input.subrange(p + 1, p + 5));
        }
        if left >= 8 {
            lemma_few_digits(input.subrange(p + 1, p + 9));
        }
    }
}

/// The header of an envelope: behind its first byte a 0x18 may stand, and then a
/// token of major type 2 with the number of bytes that it holds.
pub proof fn law_envelope_read(input: Seq<u8>, p: int)
    requires
        0 <= p,
    ensures
        p + 1 >= input.len() ==> read::enter(input, p) == Err::<(int, int), _>(
            ("unexpected EOF"@, p + 1),
        ),
        p + 1 < input.len() ==> ({
            let header: int = if input[p + 1] == 0x18 {
                p + 2
            } else {
                p + 1
            };
            match read::token(input, header) {
                Err(e) => read::enter(input, p) == Err::<(int, int), _>(e),
                Ok(((major, n), q)) => {
                    &&& major != 2 ==> read::enter(input, p) == Err::<(int, int), _>(
                        ("envelope missing byte-string header"@, q),
                    )
                    &&& major == 2 && q + n <= usize::MAX ==> read::enter(input, p) == Ok::<
                        _,
                        (Seq<char>, int),
                    >((q + n, q))
                    &&& major == 2 && q + n > usize::MAX ==> read::enter(input, p) == Ok::<
                        _,
                        (Seq<char>, int),
                    >((usize::MAX as int, q))
                },
            }
        }),
        p >= input.len() ==> read::skip(input, p) == Err::<((), int), _>(("unexpected EOF"@, p)),
        p < input.len() && input[p] != 0xD8 ==> read::skip(input, p) == Ok::<_, (Seq<char>, int)>(
            ((), p),
        ),
        p < input.len() && input[p] == 0xD8 ==> match read::enter(input, p) {
            Ok((_, q)) => read::skip(input, p) == Ok::<_, (Seq<char>, int)>(((), q)),
            Err(e) => read::skip(input, p) == Err::<((), int), _>(e),
        },
{
}

/// Text: a token of major type 3 with the number of its bytes, and then the
/// bytes, which have to be UTF-8 and are read as the characters that they
/// encode.
pub proof fn law_text_read(input: Seq<u8>, p: int)
    requires
        0 <= p,
    ensures
        match read::token(input, p) {
            Err(e) => read::string(input, p) == Err::<(Seq<char>, int), _>(e),
            Ok(((major, n), q)) => {
                let utf8 = input.subrange(q, q + n);
                &&& major != 3 ==> read::string(input, p) == Err::<(Seq<char>, int), _>(
                    ("expected string, major "@ + text::decimal(major as int), q),
                )
                &&& major == 3 && q + n > input.len() ==> read::string(input, p) == Err::<
                    (Seq<char>, int),
                    _,
                >(("unexpected EOF"@, q))
                &&& major == 3 && q + n <= input.len() && vstd::utf8::valid_utf8(utf8)
                    ==> read::string(input, p) == Ok::<_, (Seq<char>, int)>(
                    (vstd::utf8::decode_utf8(utf8), q + n),
                )
                &&& major == 3 && q + n <= input.len() && !vstd::utf8::valid_utf8(utf8)
                    ==> read::string(input, p) == Err::<(Seq<char>, int), _>(
                    (text::utf8_fault(utf8), q + n),
                )
            },
        },
{
}

/// A double is read from the byte 0xFB and the eight bytes behind it, which are
/// its bit pattern, most significant first, whatever its sign.
pub proof fn law_double_read(input: Seq<u8>, p: int)
    requires
        0 <= p < input.len(),
        input[p] == 0xFB,
    ensures
        p + 9 > input.len() ==> read::item(input, p) == Err::<(Tree, int), _>(
            ("unexpected EOF"@, p + 1),
        ) && read::event(input, p) == Err::<(Event, int), _>(("unexpected EOF"@, p + 1)),
        p + 9 <= input.len() ==> ({
            let bits = (input[p + 1] * 0x100_0000_0000_0000 + input[p + 2] * 0x1_0000_0000_0000
                + input[p + 3] * 0x100_0000_0000 + input[p + 4] * 0x1_0000_0000 + input[p + 5]
                * 0x100_0000 + input[p + 6] * 0x1_0000 + input[p + 7] * 0x100 + input[p
                + 8]) as u64;
            &&& read::event(input, p) == Ok::<_, (Seq<char>, int)>((Event::Double(bits), p + 9))
            &&& read::item(input, p) == Ok::<_, (Seq<char>, int)>((Tree::Double(bits), p + 9))
        }),
{
    if p + 9 <= input.len() {
        lemma_few_digits(input.subrange(p + 1, p + 9));
    }
}

/// An integer is read from a token of major type 0, as the value itself, or of
/// major type 1, as the value below -1. A value of 2 to the power 63 or more
/// wraps round, as 64 bits in two's complement do.
pub proof fn law_integer_read(input: Seq<u8>, p: int)
    requires
        0 <= p < input.len(),
        input[p] < 0x40,
    ensures
        match read::token(input, p) {
            Err(e) => {
                &&& read::event(input, p) == Err::<(Event, int), _>(e)
                &&& read::item(input, p) == Err::<(Tree, int), _>(e)
            },
            Ok(((_, n), q)) => {
                let low: int = if n < 0x8000_0000_0000_0000 {
                    n as int
                } else {
                    n - 0x1_0000_0000_0000_0000
                };
                let v: int = if input[p] < 0x20 {
                    low
                } else {
                    -1 - low
                };
                &&& i64::MIN <= v <= i64::MAX
                &&& read::event(input, p) == Ok::<_, (Seq<char>, int)>((Event::Int(v as i64), q))
                &&& read::item(input, p) == Ok::<_, (Seq<char>, int)>((Tree::Int(v as i64), q))
            },
        },
{
}

/// Binary is read from a token of major type 2 with the number of bytes, and the
/// bytes behind it; text as [`law_text_read`] says.
pub proof fn law_string_items(input: Seq<u8>, p: int)
    requires
        0 <= p < input.len(),
    ensures
        0x40 <= input[p] < 0x60 ==> match read::token(input, p) {
            Err(e) => {
                &&& read::event(input, p) == Err::<(Event, int), _>(e)
                &&& read::item(input, p) == Err::<(Tree, int), _>(e)
            },
            Ok(((_, n), q)) => {
                let bytes = input.subrange(q, q + n);
                &&& q + n > input.len() ==> {
                    &&& read::event(input, p) == Err::<(Event, int), _>(("unexpected EOF"@, q))
                    &&& read::item(input, p) == Err::<(Tree, int), _>(("unexpected EOF"@, q))
                }
                &&& q + n <= input.len() ==> {
                    &&& read::event(input, p) == Ok::<_, (Seq<char>, int)>(
                        (Event::Bytes(bytes), q + n),
                    )
                    &&& read::item(input, p) == Ok::<_, (Seq<char>, int)>(
                        (Tree::Bytes(bytes), q + n),
                    )
                }
            },
        },
        0x60 <= input[p] < 0x80 ==> match read::string(input, p) {
            Err(e) => {
                &&& read::event(input, p) == Err::<(Event, int), _>(e)
                &&& read::item(input, p) == Err::<(Tree, int), _>(e)
            },
            Ok((s, q)) => {
                &&& read::event(input, p) == Ok::<_, (Seq<char>, int)>((Event::Text(s), q))
                &&& read::item(input, p) == Ok::<_, (Seq<char>, int)>((Tree::Text(s), q))
            },
        },
{
}

/// Null and the truth values are read from one byte each; the bytes 0x9F and
/// 0xBF start an array and an object; tags, but for that of an envelope, are
/// passed; and every other byte is refused and named.
pub proof fn law_other_items(input: Seq<u8>, p: int)
    requires
        0 <= p,
    ensures
        p >= input.len() ==> {
            &&& read::event(input, p) == Err::<(Event, int), _>(("unexpected EOF"@, p))
            &&& read::item(input, p) == Err::<(Tree, int), _>(("unexpected EOF"@, p))
        },
        p < input.len() ==> ({
            let b = input[p];
            let event = read::event(input, p);
            let item = read::item(input, p);
            let bad = ("unsupported initial byte 0x"@ + text::hex2(b), p);
            &&& b == 0xF4 ==> event == Ok::<_, (Seq<char>, int)>((Event::Bool(false), p + 1))
                && item == Ok::<_, (Seq<char>, int)>((Tree::Bool(false), p + 1))
            &&& b == 0xF5 ==> event == Ok::<_, (Seq<char>, int)>((Event::Bool(true), p + 1)) && item
                == Ok::<_, (Seq<char>, int)>((Tree::Bool(true), p + 1))
            &&& b == 0xF6 ==> event == Ok::<_, (Seq<char>, int)>((Event::Null, p + 1)) && item
                == Ok::<_, (Seq<char>, int)>((Tree::Null, p + 1))
            &&& b == 0x9F ==> event == Ok::<_, (Seq<char>, int)>((Event::ArrayStart, p + 1))
            &&& b == 0xBF ==> event == Ok::<_, (Seq<char>, int)>((Event::ObjectStart, p + 1))
            &&& 0xC0 <= b < 0xE0 && b != 0xD8 ==> match read::token(input, p) {
                Err(e) => event == Err::<(Event, int), _>(e) && item == Err::<(Tree, int), _>(e),
                Ok((_, q)) => event == read::event(input, q) && item == read::item(input, q),
            }
            &&& b == 0xD8 ==> match read::enter(input, p) {
                Err(e) => event == Err::<(Event, int), _>(e) && item == Err::<(Tree, int), _>(e),
                Ok((end, q)) => event == Ok::<_, (Seq<char>, int)>((Event::Envelope(end), q)),
            }
            &&& (0x80 <= b < 0x9F || 0xA0 <= b < 0xBF || (0xE0 <= b && b != 0xF4 && b != 0xF5 && b
                != 0xF6 && b != 0xFB)) ==> event == Err::<(Event, int), _>(bad) && item == Err::<
                (Tree, int),
                _,
            >(bad)
        }),
{
    if p < input.len() && 0xC0 <= input[p] < 0xE0 && input[p] != 0xD8 {
        if let Ok((_, q)) = read::token(input, p) {
            assert(read::event(input, p) == read::event(input, q));
        }
    }
}

/// What stands in an envelope is read from behind its header, and then the
/// reader goes on where the envelope says that it ends. An array is the list of
/// its items, and an object that of its entries.
pub proof fn law_compound_items(input: Seq<u8>, p: int)
    requires
        0 <= p < input.len(),
    ensures
        input[p] == 0xD8 ==> match read::enter(input, p) {
            Err(_) => true,
            Ok((end, q)) => match read::item(input, q) {
                Ok((t, _)) => read::item(input, p) == Ok::<_, (Seq<char>, int)>((t, end)),
                Err(e) => read::item(input, p) == Err::<(Tree, int), _>(e),
            },
        },
        input[p] == 0x9F ==> match read::items(input, p + 1) {
            Ok((ts, q)) => read::item(input, p) == Ok::<_, (Seq<char>, int)>((Tree::Array(ts), q)),
            Err(e) => read::item(input, p) == Err::<(Tree, int), _>(e),
        },
        input[p] == 0xBF ==> match read::entries(input, p + 1) {
            Ok((ts, q)) => read::item(input, p) == Ok::<_, (Seq<char>, int)>((Tree::Object(ts), q)),
            Err(e) => read::item(input, p) == Err::<(Tree, int), _>(e),
        },
{
}

/// The items of an array: none where the byte 0xFF stands, and otherwise the
/// value there, followed by the items behind it.
pub proof fn law_items_read(input: Seq<u8>, p: int)
    requires
        0 <= p,
        input.len() <= usize::MAX,
    ensures
        p >= input.len() ==> read::items(input, p) == Err::<(Seq<Tree>, int), _>(
            ("unexpected EOF"@, p),
        ),
        p < input.len() && input[p] == 0xFF ==> read::items(input, p) == Ok::<
            _,
            (Seq<char>, int),
        >((Seq::<Tree>::empty(), p + 1)),
        p < input.len() && input[p] != 0xFF ==> match read::item(input, p) {
            Err(e) => read::items(input, p) == Err::<(Seq<Tree>, int), _>(e),
            Ok((t, q)) => match read::items(input, q) {
                Err(e) => read::items(input, p) == Err::<(Seq<Tree>, int), _>(e),
                Ok((ts, r)) => read::items(input, p) == Ok::<_, (Seq<char>, int)>(
                    (seq![t] + ts, r),
                ),
            },
        },
        p >= input.len() ==> read::element(input, p) == Err::<(Option<Tree>, int), _>(
            ("unexpected EOF"@, p),
        ),
        p < input.len() && input[p] == 0xFF ==> read::element(input, p) == Ok::<
            _,
            (Seq<char>, int),
        >((None::<Tree>, p + 1)),
        p < input.len() && input[p] != 0xFF ==> match read::item(input, p) {
            Err(e) => read::element(input, p) == Err::<(Option<Tree>, int), _>(e),
            Ok((t, q)) => read::element(input, p) == Ok::<_, (Seq<char>, int)>((Some(t), q)),
        },
{
    read::lemma_item_advances(input, p);
}

/// The entries of an object: none where the byte 0xFF stands, and otherwise the
/// key there with the value behind it, followed by the entries behind that.
pub proof fn law_entries_read(input: Seq<u8>, p: int)
    requires
        0 <= p,
        input.len() <= usize::MAX,
    ensures
        p >= input.len() ==> read::entries(input, p) == Err::<(Seq<(Tree, Tree)>, int), _>(
            ("unexpected EOF"@, p),
        ),
        p < input.len() && input[p] == 0xFF ==> read::entries(input, p) == Ok::<
            _,
            (Seq<char>, int),
        >((Seq::<(Tree, Tree)>::empty(), p + 1)),
        p < input.len() && input[p] != 0xFF ==> match read::item(input, p) {
            Err(e) => read::entries(input, p) == Err::<(Seq<(Tree, Tree)>, int), _>(e),
            Ok((k, q)) => match read::item(input, q) {
                Err(e) => read::entries(input, p) == Err::<(Seq<(Tree, Tree)>, int), _>(e),
                Ok((v, r)) => match read::entries(input, r) {
                    Err(e) => read::entries(input, p) == Err::<(Seq<(Tree, Tree)>, int), _>(e),
                    Ok((ts, s)) => read::entries(input, p) == Ok::<_, (Seq<char>, int)>(
                        (seq![(k, v)] + ts, s),
                    ),
                },
            },
        },
{
    read::lemma_item_advances(input, p);
    if let Ok((_, q)) = read::item(input, p) {
        read::lemma_item_advances(input, q);
    }
}

/// A marker is passed if it is there, and nothing else is.
pub proof fn law_marker_read(input: Seq<u8>, p: int, marker: u8)
    requires
        0 <= p,
    ensures
        p >= input.len() ==> read::marked(input, p, marker) == Err::<(bool, int), _>(
            ("unexpected EOF"@, p),
        ),
        p < input.len() && input[p] == marker ==> read::marked(input, p, marker) == Ok::<
            _,
            (Seq<char>, int),
        >((true, p + 1)),
        p < input.len() && input[p] != marker ==> read::marked(input, p, marker) == Ok::<
            _,
            (Seq<char>, int),
        >((false, p)),
{
}

/// An enum value is the text that names its variant, or, where an envelope or a
/// map stands, an object whose first byte is passed.
pub proof fn law_variant_read(input: Seq<u8>, p: int)
    requires
        0 <= p,
        input.len() < usize::MAX,
    ensures
        p >= input.len() ==> read::variant(input, p) == Err::<(Option<Seq<char>>, int), _>(
            ("unexpected EOF"@, p),
        ),
        p < input.len() && (input[p] == 0xD8 || 0xA0 <= input[p] < 0xC0) ==> match read::skip(
            input,
            p,
        ) {
            Err(e) => read::variant(input, p) == Err::<(Option<Seq<char>>, int), _>(e),
            Ok((_, q)) => read::variant(input, p) == Ok::<_, (Seq<char>, int)>(
                (None::<Seq<char>>, q + 1),
            ),
        },
        p < input.len() && input[p] != 0xD8 && !(0xA0 <= input[p] < 0xC0) ==> match read::string(
            input,
            p,
        ) {
            Err(e) => read::variant(input, p) == Err::<(Option<Seq<char>>, int), _>(e),
            Ok((s, q)) => read::variant(input, p) == Ok::<_, (Seq<char>, int)>((Some(s), q)),
        },
{
}

/// The length of a message is that of its header, which is 0xD8, perhaps 0x18,
/// then 0x5A and four bytes, plus the number that these four bytes spell, most
/// significant first. What does not start with 0xD8 is no message, and without
/// the whole header nothing is known.
pub proof fn law_message_length(bytes: Seq<u8>)
    ensures
        ({
            let r = read::frame_len(bytes);
            let tagged = bytes.len() >= 2 && bytes[1] == 0x18;
            let at: int = if tagged {
                2
            } else {
                1
            };
            let unknown = Ok::<Option<int>, Seq<char>>(None);
            &&& bytes.len() == 0 ==> r == unknown
            &&& bytes.len() > 0 && bytes[0] != 0xD8 ==> r == Err::<Option<int>, _>(
                "not an envelope: 0x"@ + text::hex2(bytes[0]),
            )
            &&& bytes.len() > 0 && bytes[0] == 0xD8 && bytes.len() < at + 5 ==> r == unknown
            &&& bytes.len() >= at + 5 && bytes[0] == 0xD8 && bytes[at] != 0x5A ==> r == unknown
            &&& bytes.len() >= at + 5 && bytes[0] == 0xD8 && bytes[at] == 0x5A ==> r == Ok::<
                _,
                Seq<char>,
            >(
                Some(
                    at + 5 + bytes[at + 1] * 0x100_0000 + bytes[at + 2] * 0x1_0000 + bytes[at + 3]
                        * 0x100 + bytes[at + 4],
                ),
            )
        }),
{
    let at: int = if bytes.len() >= 2 && bytes[1] == 0x18 {
        2
    } else {
        1
    };
    if bytes.len() >= at + 5 {
        lemma_few_digits(bytes.subrange(at + 1, at + 5));
    }
}

} // verus!
