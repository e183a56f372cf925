//! The decoder.
//!
//! It steps over envelopes wherever an item is expected, and reads
//! indefinite-length maps and arrays up to their stop byte.

use super::be;
use super::consts;
use super::consts::{
    CBOR_ENVELOPE_TAG, ENCODED_NULL, INFO_1BYTE, INFO_2BYTES, INFO_4BYTES, INFO_8BYTES,
    INFO_INDEFINITE, INITIAL_BYTE_32BIT_BYTESTRING, INITIAL_BYTE_ENVELOPE, MAJOR_ARRAY,
    MAJOR_BYTE_STRING, MAJOR_MAP, MAJOR_NEGATIVE, MAJOR_SIMPLE, MAJOR_STRING, MAJOR_TAG,
    MAJOR_UNSIGNED, STOP_BYTE,
};
use super::read;
use super::read::Event;
use super::value;
use super::value::{Tree, Value};
use crate::text;
use vstd::prelude::*;

verus! {

/// Why a message could not be decoded.
#[derive(Debug)]
pub struct Error(pub String);

impl Error {
    fn eof() -> (e: Error)
        ensures
            e.0@ == "unexpected EOF"@,
    {
        Error("unexpected EOF".to_string())
    }

    /// The error as a line of text.
    pub fn describe(&self) -> (s: String)
        ensures
            s@ == "cbor de: "@ + self.0@,
    {
        "cbor de: ".to_string().concat(self.0.as_str())
    }
}

/// Decodes the value at the start of `bytes`. What follows it is not looked at.
pub fn from_slice(bytes: &[u8]) -> (r: Result<Value, Error>)
    ensures
        match r {
            Ok(v) => read::item(bytes@, 0) matches Ok((t, _)) && t == v@,
            Err(e) => read::item(bytes@, 0) matches Err((message, _)) && message == e.0@,
        },
{
    let mut de = Deserializer { input: bytes, pos: 0 };
    de.deserialize_any()
}

/// Decodes the value at the start of `bytes`, as [`from_slice`] does.
pub fn decode(bytes: &[u8]) -> (r: Result<Value, Error>)
    ensures
        match r {
            Ok(v) => read::item(bytes@, 0) matches Ok((t, _)) && t == v@,
            Err(e) => read::item(bytes@, 0) matches Err((message, _)) && message == e.0@,
        },
{
    let mut de = Deserializer { input: bytes, pos: 0 };
    de.deserialize_any()
}

/// The length of the whole message that starts at `bytes[0]`, from its envelope
/// header alone, or `None` as long as the header has not arrived. A reader
/// learns from it how many bytes form one frame.
pub fn message_len(bytes: &[u8]) -> (r: Result<Option<usize>, Error>)
    ensures
        match r {
            Ok(None) => read::frame_len(bytes@) == Ok::<_, Seq<char>>(None::<int>),
            Ok(Some(n)) => read::frame_len(bytes@) matches Ok(Some(len)) && n == read::clamped(len),
            Err(e) => read::frame_len(bytes@) == Err::<Option<int>, _>(e.0@),
        },
{
    if bytes.len() == 0 {
        return Ok(None);
    }
    if bytes[0] != INITIAL_BYTE_ENVELOPE {
        let mut message = "not an envelope: 0x".to_string();
        text::push_hex2(&mut message, bytes[0]);
        return Err(Error(message));
    }
    let mut off: usize = 1;
    if bytes.len() > 1 && bytes[1] == CBOR_ENVELOPE_TAG {
        off = 2;
    }
    if off >= bytes.len() || bytes[off] != INITIAL_BYTE_32BIT_BYTESTRING {
        // The header has not fully arrived.
        return Ok(None);
    }
    off += 1;
    if bytes.len() - off < 4 {
        return Ok(None);
    }
    let digits: &[u8] = &bytes[off..off + 4];
    proof {
        be::lemma_number_bound(digits@);
        be::lemma_pow256_values();
    }
    let len: usize = be::read_be(digits) as usize;
    Ok(Some(len.saturating_add(off + 4)))
}

/// A cursor on an input.
pub struct Deserializer<'de> {
    pub input: &'de [u8],
    pub pos: usize,
}

impl<'de> Deserializer<'de> {
    /// The byte under the cursor.
    pub fn peek(&self) -> (r: Result<u8, Error>)
        ensures
            match r {
                Ok(b) => self.pos < self.input.len() && b == self.input@[self.pos as int],
                Err(e) => self.pos >= self.input.len() && e.0@ == "unexpected EOF"@,
            },
    {
        if self.pos < self.input.len() {
            Ok(self.input[self.pos])
        } else {
            Err(Error::eof())
        }
    }

    /// The byte under the cursor, which moves on.
    pub fn take(&mut self) -> (r: Result<u8, Error>)
        ensures
            final(self).input == old(self).input,
            match r {
                Ok(b) => {
                    &&& old(self).pos < old(self).input.len()
                    &&& b == old(self).input@[old(self).pos as int]
                    &&& final(self).pos == old(self).pos + 1
                },
                Err(e) => {
                    &&& old(self).pos >= old(self).input.len()
                    &&& e.0@ == "unexpected EOF"@
                    &&& final(self).pos == old(self).pos
                },
            },
    {
        let b: u8 = self.peek()?;
        self.pos += 1;
        Ok(b)
    }

    /// The next `n` bytes.
    pub fn take_n(&mut self, n: usize) -> (r: Result<&'de [u8], Error>)
        ensures
            final(self).input == old(self).input,
            ({
                let want = read::chunk(old(self).input@, old(self).pos as int, n as int);
                match r {
                    Ok(bytes) => read::gives(want, bytes@, final(self).pos),
                    Err(e) => read::fails(want, e.0@, final(self).pos),
                }
            }),
    {
        if self.pos > self.input.len() || n > self.input.len() - self.pos {
            return Err(Error::eof());
        }
        let input: &'de [u8] = self.input;
        let bytes: &'de [u8] = &input[self.pos..self.pos + n];
        self.pos += n;
        Ok(bytes)
    }

    /// The next `n` bytes, for a length that a message gives.
    fn take_len(&mut self, n: u64) -> (r: Result<&'de [u8], Error>)
        ensures
            final(self).input == old(self).input,
            ({
                let want = read::chunk(old(self).input@, old(self).pos as int, n as int);
                match r {
                    Ok(bytes) => read::gives(want, bytes@, final(self).pos),
                    Err(e) => read::fails(want, e.0@, final(self).pos),
                }
            }),
    {
        if n > self.input.len() as u64 {
            return Err(Error::eof());
        }
        self.take_n(n as usize)
    }

    /// A big-endian number of `width` bytes.
    fn take_be(&mut self, width: usize) -> (r: Result<u64, Error>)
        requires
            width <= 8,
        ensures
            final(self).input == old(self).input,
            ({
                let want = read::chunk(old(self).input@, old(self).pos as int, width as int);
                match r {
                    Ok(v) => {
                        &&& want matches Ok((digits, q))
                        &&& v == be::number(digits)
                        &&& q == final(self).pos
                    },
                    Err(e) => read::fails(want, e.0@, final(self).pos),
                }
            }),
    {
        let digits: &[u8] = self.take_n(width)?;
        Ok(be::read_be(digits))
    }

    /// Reads a token start, and returns the major type and the value. For a
    /// byte string or a string the value is the length; for an integer it is
    /// the payload; `u64::MAX` stands for an indefinite length.
    pub fn read_token(&mut self) -> (r: Result<(u8, u64), Error>)
        ensures
            final(self).input == old(self).input,
            ({
                let want = read::token(old(self).input@, old(self).pos as int);
                match r {
                    Ok(token) => read::gives(want, token, final(self).pos),
                    Err(e) => read::fails(want, e.0@, final(self).pos),
                }
            }),
    {
        let initial: u8 = self.take()?;
        let (major, info): (u8, u8) = consts::split_initial(initial);
        let value: u64 = if info < INFO_1BYTE {
            info as u64
        } else if info == INFO_1BYTE {
            self.take_be(1)?
        } else if info == INFO_2BYTES {
            self.take_be(2)?
        } else if info == INFO_4BYTES {
            self.take_be(4)?
        } else if info == INFO_8BYTES {
            self.take_be(8)?
        } else if info == INFO_INDEFINITE {
            u64::MAX
        } else {
            let mut message = "bad additional info ".to_string();
            text::push_decimal(&mut message, info as i64);
            return Err(Error(message));
        };
        Ok((major, value))
    }

    /// Steps past the header of the envelope under the cursor, which then lies
    /// on the item inside, and returns the position at which the envelope ends.
    ///
    /// Snapping to this end after the item has been decoded makes the decoder
    /// robust to how much of the item was read: a tuple of fixed size leaves
    /// the stop byte of its array unread, but the envelope still bounds it.
    pub fn enter_envelope(&mut self) -> (r: Result<usize, Error>)
        requires
            old(self).pos < usize::MAX,
        ensures
            final(self).input == old(self).input,
            ({
                let want = read::enter(old(self).input@, old(self).pos as int);
                match r {
                    Ok(end) => read::gives(want, end as int, final(self).pos),
                    Err(e) => read::fails(want, e.0@, final(self).pos),
                }
            }),
    {
        self.pos += 1;
        if self.peek()? == CBOR_ENVELOPE_TAG {
            self.pos += 1;
        }
        let (major, len): (u8, u64) = self.read_token()?;
        if major != MAJOR_BYTE_STRING {
            return Err(Error("envelope missing byte-string header".to_string()));
        }
        if len > (usize::MAX - self.pos) as u64 {
            Ok(usize::MAX)
        } else {
            Ok(self.pos + len as usize)
        }
    }

    /// If the cursor lies on an envelope, steps past its header.
    pub fn skip_envelope(&mut self) -> (r: Result<(), Error>)
        ensures
            final(self).input == old(self).input,
            ({
                let want = read::skip(old(self).input@, old(self).pos as int);
                match r {
                    Ok(_) => read::gives(want, (), final(self).pos),
                    Err(e) => read::fails(want, e.0@, final(self).pos),
                }
            }),
    {
        if self.peek()? == INITIAL_BYTE_ENVELOPE {
            self.enter_envelope()?;
        }
        Ok(())
    }

    /// Reads a string.
    pub fn read_str(&mut self) -> (r: Result<&'de str, Error>)
        ensures
            final(self).input == old(self).input,
            ({
                let want = read::string(old(self).input@, old(self).pos as int);
                match r {
                    Ok(s) => read::gives(want, s@, final(self).pos),
                    Err(e) => read::fails(want, e.0@, final(self).pos),
                }
            }),
    {
        let (major, len): (u8, u64) = self.read_token()?;
        if major != MAJOR_STRING {
            let mut message = "expected string, major ".to_string();
            text::push_decimal(&mut message, major as i64);
            return Err(Error(message));
        }
        let bytes: &'de [u8] = self.take_len(len)?;
        match text::checked_utf8(bytes) {
            Ok(s) => Ok(s),
            Err(message) => Err(Error(message)),
        }
    }

    /// Reads the next item, or the start of one. Tags other than that of an
    /// envelope are passed over. Behind [`Visit::Envelope`] the item inside
    /// comes next, and then [`Deserializer::leave_envelope`].
    pub fn next_visit(&mut self) -> (r: Result<Visit<'de>, Error>)
        ensures
            final(self).input == old(self).input,
            ({
                let want = read::event(old(self).input@, old(self).pos as int);
                match r {
                    Ok(visit) => read::gives(want, visit@, final(self).pos),
                    Err(e) => read::fails(want, e.0@, final(self).pos),
                }
            }),
        decreases read::left(old(self).input@, old(self).pos as int),
    {
        let b: u8 = self.peek()?;
        if b == INITIAL_BYTE_ENVELOPE {
            let end: usize = self.enter_envelope()?;
            return Ok(Visit::Envelope(end));
        }
        let (major, info): (u8, u8) = consts::split_initial(b);
        if major == MAJOR_UNSIGNED {
            let (_, v): (u8, u64) = self.read_token()?;
            Ok(Visit::Int(signed(v)))
        } else if major == MAJOR_NEGATIVE {
            let (_, v): (u8, u64) = self.read_token()?;
            Ok(Visit::Int(-1 - signed(v)))
        } else if major == MAJOR_BYTE_STRING {
            let (_, len): (u8, u64) = self.read_token()?;
            let bytes: &'de [u8] = self.take_len(len)?;
            Ok(Visit::Bytes(bytes))
        } else if major == MAJOR_STRING {
            let s: &'de str = self.read_str()?;
            Ok(Visit::Text(s))
        } else if major == MAJOR_ARRAY && info == INFO_INDEFINITE {
            self.pos += 1;
            Ok(Visit::ArrayStart)
        } else if major == MAJOR_MAP && info == INFO_INDEFINITE {
            self.pos += 1;
            Ok(Visit::ObjectStart)
        } else if major == MAJOR_SIMPLE && info == 20 {
            self.pos += 1;
            Ok(Visit::Bool(false))
        } else if major == MAJOR_SIMPLE && info == 21 {
            self.pos += 1;
            Ok(Visit::Bool(true))
        } else if major == MAJOR_SIMPLE && info == 22 {
            self.pos += 1;
            Ok(Visit::Null)
        } else if major == MAJOR_SIMPLE && info == INFO_8BYTES {
            self.pos += 1;
            let bits: u64 = self.take_be(8)?;
            Ok(Visit::Double(bits))
        } else if major == MAJOR_TAG {
            self.read_token()?;
            self.next_visit()
        } else {
            let mut message = "unsupported initial byte 0x".to_string();
            text::push_hex2(&mut message, b);
            Err(Error(message))
        }
    }

    /// Moves the cursor to the end of an envelope whose item has been decoded,
    /// so that whatever was left unread inside is passed over.
    pub fn leave_envelope(&mut self, end: usize)
        ensures
            final(self).input == old(self).input,
            final(self).pos == end,
    {
        self.pos = end;
    }

    /// If the byte under the cursor is `marker`, steps past it, and says so.
    fn take_marker(&mut self, marker: u8) -> (r: Result<bool, Error>)
        ensures
            final(self).input == old(self).input,
            ({
                let want = read::marked(old(self).input@, old(self).pos as int, marker);
                match r {
                    Ok(yes) => read::gives(want, yes, final(self).pos),
                    Err(e) => read::fails(want, e.0@, final(self).pos),
                }
            }),
    {
        if self.peek()? == marker {
            self.pos += 1;
            Ok(true)
        } else {
            Ok(false)
        }
    }

    /// Whether the array or object under the cursor is at its stop byte, which
    /// is then passed.
    pub fn take_stop(&mut self) -> (r: Result<bool, Error>)
        ensures
            final(self).input == old(self).input,
            ({
                let want = read::marked(old(self).input@, old(self).pos as int, STOP_BYTE);
                match r {
                    Ok(yes) => read::gives(want, yes, final(self).pos),
                    Err(e) => read::fails(want, e.0@, final(self).pos),
                }
            }),
    {
        self.take_marker(STOP_BYTE)
    }

    /// Whether an optional value is missing, which is a null; the null is then
    /// passed.
    pub fn deserialize_option(&mut self) -> (r: Result<bool, Error>)
        ensures
            final(self).input == old(self).input,
            ({
                let want = read::marked(old(self).input@, old(self).pos as int, ENCODED_NULL);
                match r {
                    Ok(missing) => read::gives(want, missing, final(self).pos),
                    Err(e) => read::fails(want, e.0@, final(self).pos),
                }
            }),
    {
        self.take_marker(ENCODED_NULL)
    }

    /// Passes a null if there is one.
    pub fn deserialize_unit(&mut self) -> (r: Result<(), Error>)
        ensures
            final(self).input == old(self).input,
            ({
                let want = read::marked(old(self).input@, old(self).pos as int, ENCODED_NULL);
                match r {
                    Ok(_) => want matches Ok((_, q)) && q == final(self).pos,
                    Err(e) => read::fails(want, e.0@, final(self).pos),
                }
            }),
    {
        self.take_marker(ENCODED_NULL)?;
        Ok(())
    }

    /// Starts on an enum value: a plain string is the name of a variant without
    /// fields; where an object `{ variant: ... }` starts, the result is `None`,
    /// and the variant's name comes next.
    pub fn deserialize_enum(&mut self) -> (r: Result<Option<&'de str>, Error>)
        ensures
            final(self).input == old(self).input,
            ({
                let want = read::variant(old(self).input@, old(self).pos as int);
                match r {
                    Ok(Some(name)) => read::gives(want, Some(name@), final(self).pos),
                    Ok(None) => read::gives(want, None, final(self).pos),
                    Err(e) => read::fails(want, e.0@, final(self).pos),
                }
            }),
    {
        let b: u8 = self.peek()?;
        let (major, _): (u8, u8) = consts::split_initial(b);
        if b == INITIAL_BYTE_ENVELOPE || major == MAJOR_MAP {
            self.skip_envelope()?;
            self.pos = self.pos.saturating_add(1);
            Ok(None)
        } else {
            let name: &'de str = self.read_str()?;
            Ok(Some(name))
        }
    }

    /// Reads the next value.
    pub fn deserialize_any(&mut self) -> (r: Result<Value, Error>)
        ensures
            final(self).input == old(self).input,
            ({
                let want = read::item(old(self).input@, old(self).pos as int);
                match r {
                    Ok(v) => read::gives(want, v@, final(self).pos),
                    Err(e) => read::fails(want, e.0@, final(self).pos),
                }
            }),
        decreases read::left(old(self).input@, old(self).pos as int), 1int,
    {
        proof {
            read::lemma_event_advances(self.input@, self.pos as int);
        }
        match self.next_visit()? {
            Visit::Envelope(end) => {
                let value: Value = self.deserialize_any()?;
                self.leave_envelope(end);
                Ok(value)
            },
            Visit::Int(v) => Ok(Value::Int(v)),
            Visit::Bytes(bytes) => {
                let mut copy: Vec<u8> = Vec::new();
                copy.extend_from_slice(bytes);
                assert(copy@ == bytes@);
                Ok(Value::Bytes(copy))
            },
            Visit::Text(s) => Ok(Value::Text(s.to_string())),
            Visit::ArrayStart => {
                let items: Vec<Value> = self.visit_seq()?;
                Ok(Value::Array(items))
            },
            Visit::ObjectStart => {
                let entries: Vec<(Value, Value)> = self.visit_map()?;
                Ok(Value::Object(entries))
            },
            Visit::Bool(b) => Ok(Value::Bool(b)),
            Visit::Null => Ok(Value::Null),
            Visit::Double(bits) => Ok(Value::Double(bits)),
        }
    }

    /// Reads one more item of an array, or passes the stop byte.
    pub fn next_element(&mut self) -> (r: Result<Option<Value>, Error>)
        ensures
            final(self).input == old(self).input,
            ({
                let want = read::element(old(self).input@, old(self).pos as int);
                match r {
                    Ok(Some(v)) => read::gives(want, Some(v@), final(self).pos),
                    Ok(None) => read::gives(want, None, final(self).pos),
                    Err(e) => read::fails(want, e.0@, final(self).pos),
                }
            }),
        decreases read::left(old(self).input@, old(self).pos as int), 2int,
    {
        if self.take_stop()? {
            return Ok(None);
        }
        let value: Value = self.deserialize_any()?;
        Ok(Some(value))
    }

    /// Reads one more key of an object, or passes the stop byte.
    pub fn next_key(&mut self) -> (r: Result<Option<Value>, Error>)
        ensures
            final(self).input == old(self).input,
            ({
                let want = read::element(old(self).input@, old(self).pos as int);
                match r {
                    Ok(Some(v)) => read::gives(want, Some(v@), final(self).pos),
                    Ok(None) => read::gives(want, None, final(self).pos),
                    Err(e) => read::fails(want, e.0@, final(self).pos),
                }
            }),
        decreases read::left(old(self).input@, old(self).pos as int), 2int,
    {
        if self.take_stop()? {
            return Ok(None);
        }
        let key: Value = self.deserialize_any()?;
        Ok(Some(key))
    }

    /// Reads the value that belongs to the key before it.
    pub fn next_value(&mut self) -> (r: Result<Value, Error>)
        ensures
            final(self).input == old(self).input,
            ({
                let want = read::item(old(self).input@, old(self).pos as int);
                match r {
                    Ok(v) => read::gives(want, v@, final(self).pos),
                    Err(e) => read::fails(want, e.0@, final(self).pos),
                }
            }),
        decreases read::left(old(self).input@, old(self).pos as int), 2int,
    {
        self.deserialize_any()
    }

    /// Reads the items of an array, stop byte included.
    pub fn visit_seq(&mut self) -> (r: Result<Vec<Value>, Error>)
        ensures
            final(self).input == old(self).input,
            ({
                let want = read::items(old(self).input@, old(self).pos as int);
                match r {
                    Ok(items) => read::gives(want, value::views(items@), final(self).pos),
                    Err(e) => read::fails(want, e.0@, final(self).pos),
                }
            }),
        decreases read::left(old(self).input@, old(self).pos as int), 3int,
    {
        let ghost want = read::items(self.input@, self.pos as int);
        let mut items: Vec<Value> = Vec::new();
        proof {
            assert(value::views(items@) == Seq::<Tree>::empty());
            read::lemma_after_nothing(want);
        }
        loop
            invariant
                self.input == old(self).input,
                self.pos >= old(self).pos,
                want == read::items(old(self).input@, old(self).pos as int),
                read::after(value::views(items@), read::items(self.input@, self.pos as int))
                    == want,
            decreases read::left(self.input@, self.pos as int),
        {
            let ghost before = value::views(items@);
            proof {
                let _ = self.input.len();
                read::lemma_item_advances(self.input@, self.pos as int);
            }
            match self.next_element()? {
                None => {
                    assert(before + seq![] == before);
                    return Ok(items);
                },
                Some(v) => {
                    items.push(v);
                    proof {
                        assert(value::views(items@) == before.push(v@));
                        let rest = read::items(self.input@, self.pos as int);
                        read::lemma_after_one_more(before, v@, rest);
                    }
                },
            }
        }
    }

    /// Reads the entries of an object, stop byte included.
    pub fn visit_map(&mut self) -> (r: Result<Vec<(Value, Value)>, Error>)
        ensures
            final(self).input == old(self).input,
            ({
                let want = read::entries(old(self).input@, old(self).pos as int);
                match r {
                    Ok(entries) => read::gives(
                        want,
                        value::entry_views(entries@),
                        final(self).pos,
                    ),
                    Err(e) => read::fails(want, e.0@, final(self).pos),
                }
            }),
        decreases read::left(old(self).input@, old(self).pos as int), 3int,
    {
        let ghost want = read::entries(self.input@, self.pos as int);
        let mut entries: Vec<(Value, Value)> = Vec::new();
        proof {
            assert(value::entry_views(entries@) == Seq::<(Tree, Tree)>::empty());
            read::lemma_after_nothing(want);
        }
        loop
            invariant
                self.input == old(self).input,
                self.pos >= old(self).pos,
                want == read::entries(old(self).input@, old(self).pos as int),
                read::after(
                    value::entry_views(entries@),
                    read::entries(self.input@, self.pos as int),
                ) == want,
            decreases read::left(self.input@, self.pos as int),
        {
            let ghost before = value::entry_views(entries@);
            proof {
                let _ = self.input.len();
                read::lemma_item_advances(self.input@, self.pos as int);
            }
            match self.next_key()? {
                None => {
                    assert(before + seq![] == before);
                    return Ok(entries);
                },
                Some(k) => {
                    proof {
                        read::lemma_item_advances(self.input@, self.pos as int);
                    }
                    let v: Value = self.next_value()?;
                    entries.push((k, v));
                    proof {
                        assert(value::entry_views(entries@) == before.push((k@, v@)));
                        let rest = read::entries(self.input@, self.pos as int);
                        read::lemma_after_one_more(before, (k@, v@), rest);
                    }
                },
            }
        }
    }
}

/// What stands at the cursor.
pub enum Visit<'de> {
    /// An envelope, with the position at which it ends.
    Envelope(usize),
    Int(i64),
    Bytes(&'de [u8]),
    Text(&'de str),
    /// Items follow, up to a stop byte.
    ArrayStart,
    /// Keys and values follow, up to a stop byte.
    ObjectStart,
    Bool(bool),
    Null,
    /// The bit pattern of a double.
    Double(u64),
}

impl<'de> View for Visit<'de> {
    type V = Event;

    open spec fn view(&self) -> Event {
        match *self {
            Visit::Envelope(end) => Event::Envelope(end as int),
            Visit::Int(v) => Event::Int(v),
            Visit::Bytes(b) => Event::Bytes(b@),
            Visit::Text(s) => Event::Text(s@),
            Visit::ArrayStart => Event::ArrayStart,
            Visit::ObjectStart => Event::ObjectStart,
            Visit::Bool(b) => Event::Bool(b),
            Visit::Null => Event::Null,
            Visit::Double(bits) => Event::Double(bits),
        }
    }
}

/// The number as 64 bits in two's complement.
fn signed(v: u64) -> (s: i64)
    ensures
        s == read::signed(v),
{
    if v <= i64::MAX as u64 {
        v as i64
    } else {
        -1 - (u64::MAX - v) as i64
    }
}

/// A visit stands for what it holds.
pub proof fn law_visits_stand_for_themselves<'de>(v: Visit<'de>)
    ensures
        v matches Visit::Envelope(end) ==> v@ == Event::Envelope(end as int),
        v matches Visit::Int(n) ==> v@ == Event::Int(n),
        v matches Visit::Bytes(b) ==> v@ == Event::Bytes(b@),
        v matches Visit::Text(s) ==> v@ == Event::Text(s@),
        v is ArrayStart ==> v@ is ArrayStart,
        v is ObjectStart ==> v@ is ObjectStart,
        v matches Visit::Bool(b) ==> v@ == Event::Bool(b),
        v is Null ==> v@ is Null,
        v matches Visit::Double(bits) ==> v@ == Event::Double(bits),
{
}

} // verus!
