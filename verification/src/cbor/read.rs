//! What reading a message means.
//!
//! Every function here is given the whole input and the position of a cursor.

use super::be;
use super::consts;
use super::consts::{
    CBOR_ENVELOPE_TAG, INFO_1BYTE, INFO_2BYTES, INFO_4BYTES, INFO_8BYTES, INFO_INDEFINITE,
    INITIAL_BYTE_32BIT_BYTESTRING, INITIAL_BYTE_ENVELOPE, MAJOR_ARRAY, MAJOR_BYTE_STRING, MAJOR_MAP,
    MAJOR_NEGATIVE, MAJOR_SIMPLE, MAJOR_STRING, MAJOR_TAG, MAJOR_UNSIGNED, STOP_BYTE,
};
use super::value::Tree;
use crate::text;
use vstd::prelude::*;

verus! {

/// How a read ends: with what was read and the cursor behind it, or with a
/// message and the cursor where the read gave up.
pub type Read<T> = Result<(T, int), (Seq<char>, int)>;

/// The read `want` gives `v` and leaves the cursor at `pos`.
pub open spec fn gives<T>(want: Read<T>, v: T, pos: usize) -> bool {
    want == Ok::<(T, int), (Seq<char>, int)>((v, pos as int))
}

/// The read `want` fails with `message` and leaves the cursor at `pos`.
pub open spec fn fails<T>(want: Read<T>, message: Seq<char>, pos: usize) -> bool {
    want == Err::<(T, int), (Seq<char>, int)>((message, pos as int))
}

/// The list that a read gives, with `before` in front of it.
pub open spec fn after<T>(before: Seq<T>, rest: Read<Seq<T>>) -> Read<Seq<T>> {
    match rest {
        Ok((ts, q)) => Ok((before + ts, q)),
        Err(e) => Err(e),
    }
}

/// What the next item of the input is.
pub enum Event {
    /// An envelope, with the position at which it says that it ends. The item
    /// inside comes next.
    Envelope(int),
    Int(i64),
    Bytes(Seq<u8>),
    Text(Seq<char>),
    /// An array whose items come next, up to a stop byte.
    ArrayStart,
    /// An object whose entries come next, up to a stop byte.
    ObjectStart,
    Bool(bool),
    Null,
    Double(u64),
}

/// How many bytes are left at `p`.
pub open spec fn left(input: Seq<u8>, p: int) -> nat {
    if p < input.len() {
        (input.len() - p) as nat
    } else {
        0
    }
}

/// There is no byte at `p`.
pub open spec fn eof(p: int) -> (Seq<char>, int) {
    ("unexpected EOF"@, p)
}

/// A position that a cursor can hold. An end past all of them lies past the
/// input as well.
pub open spec fn clamped(p: int) -> int {
    if p <= usize::MAX {
        p
    } else {
        usize::MAX as int
    }
}

/// The number `v` as 64 bits in two's complement.
pub open spec fn signed(v: u64) -> i64 {
    if v <= i64::MAX {
        v as i64
    } else {
        (v - 0x1_0000_0000_0000_0000) as i64
    }
}

/// The next `n` bytes.
pub open spec fn chunk(input: Seq<u8>, p: int, n: int) -> Read<Seq<u8>> {
    if p + n > input.len() {
        Err(eof(p))
    } else {
        Ok((input.subrange(p, p + n), p + n))
    }
}

/// A major type with a value that is spelled by the next `width` bytes.
pub open spec fn wide_token(input: Seq<u8>, p: int, major: u8, width: int) -> Read<(u8, u64)> {
    match chunk(input, p, width) {
        Ok((digits, q)) => Ok(((major, be::number(digits) as u64), q)),
        Err(e) => Err(e),
    }
}

/// A token start: a major type and its value. The value of an indefinite-length
/// item is `u64::MAX`.
pub open spec fn token(input: Seq<u8>, p: int) -> Read<(u8, u64)> {
    if p >= input.len() {
        Err(eof(p))
    } else {
        let major = consts::major_of(input[p]);
        let info = consts::info_of(input[p]);
        if info < 24 {
            Ok(((major, info as u64), p + 1))
        } else if info == INFO_1BYTE {
            wide_token(input, p + 1, major, 1)
        } else if info == INFO_2BYTES {
            wide_token(input, p + 1, major, 2)
        } else if info == INFO_4BYTES {
            wide_token(input, p + 1, major, 4)
        } else if info == INFO_8BYTES {
            wide_token(input, p + 1, major, 8)
        } else if info == INFO_INDEFINITE {
            Ok(((major, u64::MAX), p + 1))
        } else {
            Err(("bad additional info "@ + text::decimal(info as int), p + 1))
        }
    }
}

/// The header of the envelope whose initial byte is at `p`: the position at
/// which the envelope ends, with the cursor on the item inside.
pub open spec fn enter(input: Seq<u8>, p: int) -> Read<int> {
    if p + 1 >= input.len() {
        Err(eof(p + 1))
    } else {
        let header = if input[p + 1] == CBOR_ENVELOPE_TAG {
            p + 2
        } else {
            p + 1
        };
        match token(input, header) {
            Err(e) => Err(e),
            Ok(((major, len), q)) => if major != MAJOR_BYTE_STRING {
                Err(("envelope missing byte-string header"@, q))
            } else {
                Ok((clamped(q + len), q))
            },
        }
    }
}

/// Past the header of an envelope, if there is one.
pub open spec fn skip(input: Seq<u8>, p: int) -> Read<()> {
    if p >= input.len() {
        Err(eof(p))
    } else if input[p] == INITIAL_BYTE_ENVELOPE {
        match enter(input, p) {
            Ok((_, q)) => Ok(((), q)),
            Err(e) => Err(e),
        }
    } else {
        Ok(((), p))
    }
}

/// A string.
pub open spec fn string(input: Seq<u8>, p: int) -> Read<Seq<char>> {
    match token(input, p) {
        Err(e) => Err(e),
        Ok(((major, len), q)) => if major != MAJOR_STRING {
            Err(("expected string, major "@ + text::decimal(major as int), q))
        } else {
            match chunk(input, q, len as int) {
                Err(e) => Err(e),
                Ok((utf8, r)) => if vstd::utf8::valid_utf8(utf8) {
                    Ok((vstd::utf8::decode_utf8(utf8), r))
                } else {
                    Err((text::utf8_fault(utf8), r))
                },
            }
        },
    }
}

/// The next item. Tags other than that of an envelope are passed over.
pub open spec fn event(input: Seq<u8>, p: int) -> Read<Event>
    decreases left(input, p),
{
    if p >= input.len() {
        Err(eof(p))
    } else if input[p] == INITIAL_BYTE_ENVELOPE {
        match enter(input, p) {
            Ok((end, q)) => Ok((Event::Envelope(end), q)),
            Err(e) => Err(e),
        }
    } else {
        let major = consts::major_of(input[p]);
        let info = consts::info_of(input[p]);
        if major == MAJOR_UNSIGNED {
            match token(input, p) {
                Ok(((_, v), q)) => Ok((Event::Int(signed(v)), q)),
                Err(e) => Err(e),
            }
        } else if major == MAJOR_NEGATIVE {
            match token(input, p) {
                Ok(((_, v), q)) => Ok((Event::Int((-1 - signed(v)) as i64), q)),
                Err(e) => Err(e),
            }
        } else if major == MAJOR_BYTE_STRING {
            match token(input, p) {
                Ok(((_, len), q)) => match chunk(input, q, len as int) {
                    Ok((bytes, r)) => Ok((Event::Bytes(bytes), r)),
                    Err(e) => Err(e),
                },
                Err(e) => Err(e),
            }
        } else if major == MAJOR_STRING {
            match string(input, p) {
                Ok((s, q)) => Ok((Event::Text(s), q)),
                Err(e) => Err(e),
            }
        } else if major == MAJOR_ARRAY && info == INFO_INDEFINITE {
            Ok((Event::ArrayStart, p + 1))
        } else if major == MAJOR_MAP && info == INFO_INDEFINITE {
            Ok((Event::ObjectStart, p + 1))
        } else if major == MAJOR_SIMPLE && info == 20 {
            Ok((Event::Bool(false), p + 1))
        } else if major == MAJOR_SIMPLE && info == 21 {
            Ok((Event::Bool(true), p + 1))
        } else if major == MAJOR_SIMPLE && info == 22 {
            Ok((Event::Null, p + 1))
        } else if major == MAJOR_SIMPLE && info == INFO_8BYTES {
            match chunk(input, p + 1, 8) {
                Ok((digits, q)) => Ok((Event::Double(be::number(digits) as u64), q)),
                Err(e) => Err(e),
            }
        } else if major == MAJOR_TAG {
            match token(input, p) {
                Ok((_, q)) => event(input, q),
                Err(e) => Err(e),
            }
        } else {
            Err(("unsupported initial byte 0x"@ + text::hex2(input[p]), p))
        }
    }
}

/// The next value. Behind an envelope the cursor stands where the envelope
/// says that it ends, whatever the item inside took up.
pub open spec fn item(input: Seq<u8>, p: int) -> Read<Tree>
    decreases left(input, p), 1int,
{
    proof {
        lemma_event_advances(input, p);
    }
    match event(input, p) {
        Err(e) => Err(e),
        Ok((Event::Envelope(end), q)) => match item(input, q) {
            Ok((t, _)) => Ok((t, end)),
            Err(e) => Err(e),
        },
        Ok((Event::Int(v), q)) => Ok((Tree::Int(v), q)),
        Ok((Event::Bytes(b), q)) => Ok((Tree::Bytes(b), q)),
        Ok((Event::Text(s), q)) => Ok((Tree::Text(s), q)),
        Ok((Event::Bool(b), q)) => Ok((Tree::Bool(b), q)),
        Ok((Event::Null, q)) => Ok((Tree::Null, q)),
        Ok((Event::Double(bits), q)) => Ok((Tree::Double(bits), q)),
        Ok((Event::ArrayStart, q)) => match items(input, q) {
            Ok((ts, r)) => Ok((Tree::Array(ts), r)),
            Err(e) => Err(e),
        },
        Ok((Event::ObjectStart, q)) => match entries(input, q) {
            Ok((ts, r)) => Ok((Tree::Object(ts), r)),
            Err(e) => Err(e),
        },
    }
}

/// The values up to a stop byte.
pub open spec fn items(input: Seq<u8>, p: int) -> Read<Seq<Tree>>
    decreases left(input, p), 2int,
{
    if p >= input.len() {
        Err(eof(p))
    } else if input[p] == STOP_BYTE {
        Ok((seq![], p + 1))
    } else {
        match item(input, p) {
            Err(e) => Err(e),
            // A value takes up at least one byte, so this always holds.
            Ok((t, q)) => if q > p {
                match items(input, q) {
                    Ok((ts, r)) => Ok((seq![t] + ts, r)),
                    Err(e) => Err(e),
                }
            } else {
                Err(eof(q))
            },
        }
    }
}

/// The keys and values up to a stop byte in place of a key.
pub open spec fn entries(input: Seq<u8>, p: int) -> Read<Seq<(Tree, Tree)>>
    decreases left(input, p), 2int,
{
    if p >= input.len() {
        Err(eof(p))
    } else if input[p] == STOP_BYTE {
        Ok((seq![], p + 1))
    } else {
        match item(input, p) {
            Err(e) => Err(e),
            Ok((k, q)) => if q > p {
                match item(input, q) {
                    Err(e) => Err(e),
                    Ok((v, r)) => if r > q {
                        match entries(input, r) {
                            Ok((ts, s)) => Ok((seq![(k, v)] + ts, s)),
                            Err(e) => Err(e),
                        }
                    } else {
                        Err(eof(r))
                    },
                }
            } else {
                Err(eof(q))
            },
        }
    }
}

/// One more item of an array, or nothing at the stop byte. The same holds of
/// the keys of an object.
pub open spec fn element(input: Seq<u8>, p: int) -> Read<Option<Tree>> {
    if p >= input.len() {
        Err(eof(p))
    } else if input[p] == STOP_BYTE {
        Ok((None, p + 1))
    } else {
        match item(input, p) {
            Ok((t, q)) => Ok((Some(t), q)),
            Err(e) => Err(e),
        }
    }
}

/// Whether the next byte is `marker`, which is then passed.
pub open spec fn marked(input: Seq<u8>, p: int, marker: u8) -> Read<bool> {
    if p >= input.len() {
        Err(eof(p))
    } else if input[p] == marker {
        Ok((true, p + 1))
    } else {
        Ok((false, p))
    }
}

/// The start of an enum value: the name of a variant without fields, or
/// nothing where an object `{ variant: ... }` starts, whose key comes next.
pub open spec fn variant(input: Seq<u8>, p: int) -> Read<Option<Seq<char>>> {
    if p >= input.len() {
        Err(eof(p))
    } else if input[p] == INITIAL_BYTE_ENVELOPE || consts::major_of(input[p]) == MAJOR_MAP {
        match skip(input, p) {
            Ok((_, q)) => Ok((None, clamped(q + 1))),
            Err(e) => Err(e),
        }
    } else {
        match string(input, p) {
            Ok((s, q)) => Ok((Some(s), q)),
            Err(e) => Err(e),
        }
    }
}

/// How long the message that starts with `bytes` is, or nothing as long as its
/// header is not there.
pub open spec fn frame_len(bytes: Seq<u8>) -> Result<Option<int>, Seq<char>> {
    if bytes.len() == 0 {
        Ok(None)
    } else if bytes[0] != INITIAL_BYTE_ENVELOPE {
        Err("not an envelope: 0x"@ + text::hex2(bytes[0]))
    } else {
        let at: int = if bytes.len() > 1 && bytes[1] == CBOR_ENVELOPE_TAG {
            2
        } else {
            1
        };
        if at >= bytes.len() || bytes[at] != INITIAL_BYTE_32BIT_BYTESTRING || at + 5
            > bytes.len() {
            Ok(None)
        } else {
            Ok(Some(at + 5 + be::number(bytes.subrange(at + 1, at + 5))))
        }
    }
}

pub proof fn lemma_after_nothing<T>(rest: Read<Seq<T>>)
    ensures
        after(seq![], rest) == rest,
{
    if let Ok((ts, _)) = rest {
        assert(seq![] + ts == ts);
    }
}

pub proof fn lemma_after_one_more<T>(before: Seq<T>, t: T, rest: Read<Seq<T>>)
    ensures
        after(before, after(seq![t], rest)) == after(before.push(t), rest),
{
    if let Ok((ts, _)) = rest {
        assert(before + (seq![t] + ts) == before.push(t) + ts);
    }
}

/// Passing an item, or the start of one, moves the cursor forward, inside the
/// input. An envelope ends behind its header.
pub proof fn lemma_event_advances(input: Seq<u8>, p: int)
    ensures
        event(input, p) matches Ok((_, q)) ==> p < q <= input.len(),
        input.len() <= usize::MAX ==> (event(input, p) matches Ok((Event::Envelope(end), q))
            ==> end >= q),
    decreases left(input, p),
{
    if p < input.len() && consts::major_of(input[p]) == MAJOR_TAG {
        if let Ok((_, q)) = token(input, p) {
            lemma_event_advances(input, q);
        }
    }
}

/// Passing a value moves the cursor forward.
pub proof fn lemma_item_advances(input: Seq<u8>, p: int)
    requires
        input.len() <= usize::MAX,
    ensures
        item(input, p) matches Ok((_, q)) ==> p < q,
    decreases left(input, p), 1int,
{
    lemma_event_advances(input, p);
    match event(input, p) {
        Ok((Event::ArrayStart, q)) => lemma_items_advance(input, q),
        Ok((Event::ObjectStart, q)) => lemma_entries_advance(input, q),
        _ => {},
    }
}

proof fn lemma_items_advance(input: Seq<u8>, p: int)
    requires
        input.len() <= usize::MAX,
    ensures
        items(input, p) matches Ok((_, q)) ==> p < q,
    decreases left(input, p), 2int,
{
    if p < input.len() && input[p] != STOP_BYTE {
        if let Ok((_, q)) = item(input, p) {
            if q > p {
                lemma_items_advance(input, q);
            }
        }
    }
}

proof fn lemma_entries_advance(input: Seq<u8>, p: int)
    requires
        input.len() <= usize::MAX,
    ensures
        entries(input, p) matches Ok((_, q)) ==> p < q,
    decreases left(input, p), 2int,
{
    if p < input.len() && input[p] != STOP_BYTE {
        if let Ok((_, q)) = item(input, p) {
            if q > p {
                if let Ok((_, r)) = item(input, q) {
                    if r > q {
                        lemma_entries_advance(input, r);
                    }
                }
            }
        }
    }
}

} // verus!
