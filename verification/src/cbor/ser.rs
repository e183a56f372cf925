//! The encoder.
//!
//!   * Every map and array is wrapped in an envelope: tag 24 and a byte-string
//!     header whose 4-byte length is the wrapped item's size.
//!   * Maps and arrays have indefinite length (0xBF / 0x9F ... 0xFF).
//!   * Integers are encoded as major type 0 or 1.
//!   * Text is UTF-8 (major type 3).

use super::be;
use super::consts::{
    CBOR_ENVELOPE_TAG, ENCODED_FALSE, ENCODED_NULL, ENCODED_TRUE,
    EXPECTED_CONVERSION_TO_BASE64_TAG, INDEF_ARRAY_START, INDEF_MAP_START, INFO_1BYTE, INFO_2BYTES,
    INFO_4BYTES, INFO_8BYTES, INITIAL_BYTE_32BIT_BYTESTRING, INITIAL_BYTE_DOUBLE,
    INITIAL_BYTE_ENVELOPE, MAJOR_BYTE_STRING, MAJOR_NEGATIVE, MAJOR_STRING, MAJOR_TYPE_SHIFT,
    MAJOR_UNSIGNED, STOP_BYTE,
};
use super::value;
use super::value::{Tree, Value};
use super::wire;
use vstd::prelude::*;

verus! {

/// Why a value could not be encoded.
#[derive(Debug)]
pub struct Error(pub String);

/// Encodes `value` into a fresh buffer.
pub fn to_vec(value: &Value) -> (r: Result<Vec<u8>, Error>)
    ensures
        match r {
            Ok(bytes) => wire::refusal(value@) is None && bytes@ == wire::encoded(value@),
            Err(e) => wire::refusal(value@) == Some(e.0@),
        },
{
    let mut s = Serializer { out: Vec::new() };
    value.serialize(&mut s)?;
    assert(s.out@ == wire::encoded(value@));
    Ok(s.out)
}

/// Encodes `value` at the end of a buffer that the caller owns. A sender can
/// reuse one allocation for many messages this way. What the buffer held stays
/// in front, also where the value is refused; what had been written of the value
/// by then stays behind it.
pub fn to_buf(value: &Value, buf: &mut Vec<u8>) -> (r: Result<(), Error>)
    ensures
        match r {
            Ok(_) => {
                &&& wire::refusal(value@) is None
                &&& final(buf)@ == old(buf)@ + wire::encoded(value@)
            },
            Err(e) => {
                &&& wire::refusal(value@) == Some(e.0@)
                &&& final(buf)@ == old(buf)@ + wire::begun(value@)
            },
        },
{
    let mut s = Serializer { out: Vec::new() };
    std::mem::swap(&mut s.out, buf);
    let r = value.serialize(&mut s);
    std::mem::swap(&mut s.out, buf);
    r
}

/// Writes values one after the other at the end of `out`.
pub struct Serializer {
    pub out: Vec<u8>,
}

impl Serializer {
    /// Writes a token start: the initial byte for `major`, with `value` either
    /// inline or as a 1, 2, 4 or 8 byte big-endian payload. Only the low three
    /// bits of `major` count.
    pub fn write_token_start(&mut self, major: u8, value: u64)
        ensures
            final(self).out@ == old(self).out@ + wire::token(major as int % 8, value as int),
    {
        let mt: u8 = major << MAJOR_TYPE_SHIFT;
        assert(mt == (major % 8) * 32) by (bit_vector)
            requires
                mt == major << 5u8,
        ;
        if value < 24 {
            let low: u8 = value as u8;
            assert(mt | low == (major % 8) * 32 + low) by (bit_vector)
                requires
                    mt == (major % 8) * 32,
                    low < 32,
            ;
            self.out.push(mt | low);
        } else {
            assert(mt | 24u8 == (major % 8) * 32 + 24 && mt | 25u8 == (major % 8) * 32 + 25 && mt
                | 26u8 == (major % 8) * 32 + 26 && mt | 27u8 == (major % 8) * 32 + 27)
                by (bit_vector)
                requires
                    mt == (major % 8) * 32,
            ;
            if value <= u8::MAX as u64 {
                self.out.push(mt | INFO_1BYTE);
                be::push_be(&mut self.out, value, 1);
            } else if value <= u16::MAX as u64 {
                self.out.push(mt | INFO_2BYTES);
                be::push_be(&mut self.out, value, 2);
            } else if value <= u32::MAX as u64 {
                self.out.push(mt | INFO_4BYTES);
                be::push_be(&mut self.out, value, 4);
            } else {
                self.out.push(mt | INFO_8BYTES);
                be::push_be(&mut self.out, value, 8);
            }
        }
    }

    /// Writes an integer.
    pub fn write_int(&mut self, v: i64)
        ensures
            final(self).out@ == old(self).out@ + wire::encoded_int(v as int),
    {
        if v >= 0 {
            self.write_token_start(MAJOR_UNSIGNED, v as u64);
        } else {
            // NEGATIVE encodes -(n + 1), so the stored value is -(v + 1).
            self.write_token_start(MAJOR_NEGATIVE, (-(v + 1)) as u64);
        }
    }

    /// Writes text.
    pub fn write_str(&mut self, s: &str)
        ensures
            final(self).out@ == old(self).out@ + wire::encoded_text(s@),
    {
        let utf8: &[u8] = s.as_bytes();
        self.write_token_start(MAJOR_STRING, utf8.len() as u64);
        self.out.extend_from_slice(utf8);
    }

    /// Begins an envelope: the tag and the byte-string header, with a zero
    /// length. Returns the offset of the four length bytes, which
    /// [`Serializer::close_envelope`] fills in.
    pub fn open_envelope(&mut self) -> (pos: usize)
        ensures
            final(self).out@ == old(self).out@ + wire::envelope_header(0),
            pos == old(self).out@.len() + 3,
    {
        self.out.push(INITIAL_BYTE_ENVELOPE);
        self.out.push(CBOR_ENVELOPE_TAG);
        self.out.push(INITIAL_BYTE_32BIT_BYTESTRING);
        let pos: usize = self.out.len();
        be::push_be(&mut self.out, 0, 4);
        pos
    }

    /// Fills in an envelope's length: everything written after the four length
    /// bytes at `len_pos` is the payload.
    pub fn close_envelope(&mut self, len_pos: usize)
        requires
            len_pos + 4 <= old(self).out.len(),
        ensures
            final(self).out@ == old(self).out@.take(len_pos as int) + be::bytes(
                old(self).out@.len() - (len_pos + 4),
                4,
            ) + old(self).out@.skip(len_pos + 4),
    {
        let payload: usize = self.out.len() - (len_pos + 4);
        self.out[len_pos] = (payload / 0x100_0000 % 256) as u8;
        self.out[len_pos + 1] = (payload / 0x1_0000 % 256) as u8;
        self.out[len_pos + 2] = (payload / 0x100 % 256) as u8;
        self.out[len_pos + 3] = (payload % 256) as u8;
        proof {
            be::lemma_four_bytes(payload as int);
        }
    }
}

impl Serializer {
    pub fn serialize_bool(&mut self, v: bool) -> (r: Result<(), Error>)
        ensures
            r is Ok,
            final(self).out@ == old(self).out@ + wire::encoded(Tree::Bool(v)),
    {
        self.out.push(if v { ENCODED_TRUE } else { ENCODED_FALSE });
        Ok(())
    }

    pub fn serialize_i8(&mut self, v: i8) -> (r: Result<(), Error>)
        ensures
            r is Ok,
            final(self).out@ == old(self).out@ + wire::encoded_int(v as int),
    {
        self.write_int(v as i64);
        Ok(())
    }

    pub fn serialize_i16(&mut self, v: i16) -> (r: Result<(), Error>)
        ensures
            r is Ok,
            final(self).out@ == old(self).out@ + wire::encoded_int(v as int),
    {
        self.write_int(v as i64);
        Ok(())
    }

    pub fn serialize_i32(&mut self, v: i32) -> (r: Result<(), Error>)
        ensures
            r is Ok,
            final(self).out@ == old(self).out@ + wire::encoded_int(v as int),
    {
        self.write_int(v as i64);
        Ok(())
    }

    pub fn serialize_i64(&mut self, v: i64) -> (r: Result<(), Error>)
        ensures
            r is Ok,
            final(self).out@ == old(self).out@ + wire::encoded(Tree::Int(v)),
    {
        self.write_int(v);
        Ok(())
    }

    pub fn serialize_u8(&mut self, v: u8) -> (r: Result<(), Error>)
        ensures
            r is Ok,
            final(self).out@ == old(self).out@ + wire::encoded_int(v as int),
    {
        self.write_int(v as i64);
        Ok(())
    }

    pub fn serialize_u16(&mut self, v: u16) -> (r: Result<(), Error>)
        ensures
            r is Ok,
            final(self).out@ == old(self).out@ + wire::encoded_int(v as int),
    {
        self.write_int(v as i64);
        Ok(())
    }

    pub fn serialize_u32(&mut self, v: u32) -> (r: Result<(), Error>)
        ensures
            r is Ok,
            final(self).out@ == old(self).out@ + wire::encoded_int(v as int),
    {
        self.write_int(v as i64);
        Ok(())
    }

    /// Values that do not fit in an `i64` fall back to the nearest double.
    pub fn serialize_u64(&mut self, v: u64) -> (r: Result<(), Error>)
        ensures
            r is Ok,
            final(self).out@ == old(self).out@ + wire::encoded_unsigned(v),
    {
        if v <= i64::MAX as u64 {
            self.write_int(v as i64);
            Ok(())
        } else {
            self.serialize_f64(nearest_double(v))
        }
    }

    /// Writes the double with the given bit pattern.
    pub fn serialize_f64(&mut self, bits: u64) -> (r: Result<(), Error>)
        ensures
            r is Ok,
            final(self).out@ == old(self).out@ + wire::encoded(Tree::Double(bits)),
    {
        self.out.push(INITIAL_BYTE_DOUBLE);
        be::push_be(&mut self.out, bits, 8);
        Ok(())
    }

    pub fn serialize_char(&mut self, v: char) -> (r: Result<(), Error>)
        ensures
            r is Ok,
            final(self).out@ == old(self).out@ + wire::encoded(Tree::Text(seq![v])),
    {
        let mut s = String::new();
        s.push(v);
        assert(s@ == seq![v]);
        self.serialize_str(s.as_str())
    }

    pub fn serialize_str(&mut self, v: &str) -> (r: Result<(), Error>)
        ensures
            r is Ok,
            final(self).out@ == old(self).out@ + wire::encoded(Tree::Text(v@)),
    {
        self.write_str(v);
        Ok(())
    }

    /// Binary: tag 22 and a definite-length byte string.
    pub fn serialize_bytes(&mut self, v: &[u8]) -> (r: Result<(), Error>)
        ensures
            r is Ok,
            final(self).out@ == old(self).out@ + wire::encoded(Tree::Bytes(v@)),
    {
        self.out.push(EXPECTED_CONVERSION_TO_BASE64_TAG);
        self.write_token_start(MAJOR_BYTE_STRING, v.len() as u64);
        self.out.extend_from_slice(v);
        Ok(())
    }

    pub fn serialize_none(&mut self) -> (r: Result<(), Error>)
        ensures
            r is Ok,
            final(self).out@ == old(self).out@ + wire::encoded(Tree::Null),
    {
        self.out.push(ENCODED_NULL);
        Ok(())
    }

    /// A value that is there is written as itself.
    pub fn serialize_some(&mut self, value: &Value) -> (r: Result<(), Error>)
        ensures
            match r {
                Ok(_) => {
                    &&& wire::refusal(value@) is None
                    &&& final(self).out@ == old(self).out@ + wire::encoded(value@)
                },
                Err(e) => {
                    &&& wire::refusal(value@) == Some(e.0@)
                    &&& final(self).out@ == old(self).out@ + wire::begun(value@)
                },
            },
    {
        value.serialize(self)
    }

    pub fn serialize_unit(&mut self) -> (r: Result<(), Error>)
        ensures
            r is Ok,
            final(self).out@ == old(self).out@ + wire::encoded(Tree::Null),
    {
        self.out.push(ENCODED_NULL);
        Ok(())
    }

    pub fn serialize_unit_struct(&mut self, _name: &'static str) -> (r: Result<(), Error>)
        ensures
            r is Ok,
            final(self).out@ == old(self).out@ + wire::encoded(Tree::Null),
    {
        self.serialize_unit()
    }

    /// A variant without fields is written as its name.
    pub fn serialize_unit_variant(
        &mut self,
        _name: &'static str,
        _idx: u32,
        variant: &'static str,
    ) -> (r: Result<(), Error>)
        ensures
            r is Ok,
            final(self).out@ == old(self).out@ + wire::encoded(Tree::Text(variant@)),
    {
        self.serialize_str(variant)
    }

    /// A newtype is written as what it wraps.
    pub fn serialize_newtype_struct(&mut self, _name: &'static str, value: &Value) -> (r: Result<
        (),
        Error,
    >)
        ensures
            match r {
                Ok(_) => {
                    &&& wire::refusal(value@) is None
                    &&& final(self).out@ == old(self).out@ + wire::encoded(value@)
                },
                Err(e) => {
                    &&& wire::refusal(value@) == Some(e.0@)
                    &&& final(self).out@ == old(self).out@ + wire::begun(value@)
                },
            },
    {
        value.serialize(self)
    }

    /// Begins the object `{ variant: ... }`; the value is still to be written.
    pub fn begin_newtype_variant<'a>(&'a mut self, variant: &str) -> (c: Compound<'a>)
        ensures
            c.wf(),
            c.before() == old(self).out@,
            c.payload() == seq![INDEF_MAP_START] + wire::encoded_text(variant@),
            *final(c.ser) == *final(self),
    {
        let mut c = self.begin_object();
        c.write_text(variant);
        c
    }

    /// A variant with one field is written as the object `{ variant: value }`.
    pub fn serialize_newtype_variant(
        &mut self,
        _name: &'static str,
        _idx: u32,
        variant: &'static str,
        value: &Value,
    ) -> (r: Result<(), Error>)
        ensures
            ({
                let whole = Tree::Object(seq![(Tree::Text(variant@), value@)]);
                match r {
                    Ok(_) => {
                        &&& wire::refusal(whole) is None
                        &&& final(self).out@ == old(self).out@ + wire::encoded(whole)
                    },
                    Err(e) => {
                        &&& wire::refusal(whole) == Some(e.0@)
                        &&& final(self).out@ == old(self).out@ + wire::begun(whole)
                    },
                }
            }),
    {
        proof {
            lemma_one_entry(variant@, value@);
        }
        let mut c = self.begin_newtype_variant(variant);
        match c.serialize_value(value) {
            Ok(_) => c.end(),
            Err(e) => {
                proof {
                    lemma_still_open(c.ser.out@, c.len_pos as int);
                }
                Err(e)
            },
        }
    }

    /// Begins an array.
    pub fn serialize_seq<'a>(&'a mut self, _len: Option<usize>) -> (r: Result<Compound<'a>, Error>)
        ensures
            r matches Ok(c) && {
                &&& c.wf()
                &&& c.before() == old(self).out@
                &&& c.payload() == seq![INDEF_ARRAY_START]
                &&& *final(c.ser) == *final(self)
            },
    {
        let len_pos: usize = self.open_envelope();
        proof {
            wire::lemma_open_header();
        }
        self.out.push(INDEF_ARRAY_START);
        Ok(Compound { ser: self, len_pos })
    }

    /// Begins a tuple, which is an array.
    pub fn serialize_tuple<'a>(&'a mut self, len: usize) -> (r: Result<Compound<'a>, Error>)
        ensures
            r matches Ok(c) && {
                &&& c.wf()
                &&& c.before() == old(self).out@
                &&& c.payload() == seq![INDEF_ARRAY_START]
                &&& *final(c.ser) == *final(self)
            },
    {
        self.serialize_seq(Some(len))
    }

    /// Begins a tuple struct, which is an array.
    pub fn serialize_tuple_struct<'a>(&'a mut self, _name: &'static str, len: usize) -> (r: Result<
        Compound<'a>,
        Error,
    >)
        ensures
            r matches Ok(c) && {
                &&& c.wf()
                &&& c.before() == old(self).out@
                &&& c.payload() == seq![INDEF_ARRAY_START]
                &&& *final(c.ser) == *final(self)
            },
    {
        self.serialize_seq(Some(len))
    }

    /// Begins an object.
    pub fn begin_object<'a>(&'a mut self) -> (c: Compound<'a>)
        ensures
            c.wf(),
            c.before() == old(self).out@,
            c.payload() == seq![INDEF_MAP_START],
            *final(c.ser) == *final(self),
    {
        let len_pos: usize = self.open_envelope();
        proof {
            wire::lemma_open_header();
        }
        self.out.push(INDEF_MAP_START);
        Compound { ser: self, len_pos }
    }

    /// Begins a map, which is an object.
    pub fn serialize_map<'a>(&'a mut self, _len: Option<usize>) -> (r: Result<Compound<'a>, Error>)
        ensures
            r matches Ok(c) && {
                &&& c.wf()
                &&& c.before() == old(self).out@
                &&& c.payload() == seq![INDEF_MAP_START]
                &&& *final(c.ser) == *final(self)
            },
    {
        Ok(self.begin_object())
    }

    /// Begins a struct, which is an object.
    pub fn serialize_struct<'a>(&'a mut self, _name: &'static str, _len: usize) -> (r: Result<
        Compound<'a>,
        Error,
    >)
        ensures
            r matches Ok(c) && {
                &&& c.wf()
                &&& c.before() == old(self).out@
                &&& c.payload() == seq![INDEF_MAP_START]
                &&& *final(c.ser) == *final(self)
            },
    {
        self.serialize_map(None)
    }

    /// The dialect has no tuple variants.
    pub fn serialize_tuple_variant<'a>(
        &'a mut self,
        _name: &'static str,
        _idx: u32,
        _variant: &'static str,
        _len: usize,
    ) -> (r: Result<Compound<'a>, Error>)
        ensures
            r matches Err(e) && e.0@ == "tuple variant unsupported in crdtp dialect"@,
            *final(self) == *old(self),
    {
        Err(Error::tuple_variant())
    }

    /// The dialect has no struct variants.
    pub fn serialize_struct_variant<'a>(
        &'a mut self,
        _name: &'static str,
        _idx: u32,
        _variant: &'static str,
        _len: usize,
    ) -> (r: Result<Compound<'a>, Error>)
        ensures
            r matches Err(e) && e.0@ == "struct variant unsupported in crdtp dialect"@,
            *final(self) == *old(self),
    {
        Err(Error::struct_variant())
    }
}

impl Error {
    /// The refusal of a tuple variant.
    pub fn tuple_variant() -> (e: Error)
        ensures
            e.0@ == "tuple variant unsupported in crdtp dialect"@,
    {
        Error("tuple variant unsupported in crdtp dialect".to_string())
    }

    /// The refusal of a struct variant.
    pub fn struct_variant() -> (e: Error)
        ensures
            e.0@ == "struct variant unsupported in crdtp dialect"@,
    {
        Error("struct variant unsupported in crdtp dialect".to_string())
    }

    /// The error as a line of text.
    pub fn describe(&self) -> (s: String)
        ensures
            s@ == "cbor ser: "@ + self.0@,
    {
        "cbor ser: ".to_string().concat(self.0.as_str())
    }
}

/// The bit pattern of the double nearest to `v`, ties to even.
fn nearest_double(v: u64) -> (bits: u64)
    requires
        v > i64::MAX,
    ensures
        bits == wire::nearest_double(v),
{
    let down: u64 = v / 2048;
    let rest: u64 = v % 2048;
    let quotient: u64 = if rest < 1024 || (rest == 1024 && down % 2 == 0) {
        down
    } else {
        down + 1
    };
    1085 * 0x10_0000_0000_0000 + quotient
}

/// The header of an envelope stands in `out`, with its four length bytes, still
/// zero, at `len_pos`.
pub open spec fn is_open(out: Seq<u8>, len_pos: int) -> bool {
    &&& 3 <= len_pos
    &&& len_pos + 4 <= out.len()
    &&& out[len_pos - 3] == INITIAL_BYTE_ENVELOPE
    &&& out[len_pos - 2] == CBOR_ENVELOPE_TAG
    &&& out[len_pos - 1] == INITIAL_BYTE_32BIT_BYTESTRING
    &&& out[len_pos] == 0
    &&& out[len_pos + 1] == 0
    &&& out[len_pos + 2] == 0
    &&& out[len_pos + 3] == 0
}

/// What stands in front of an open envelope, its header, and what was written
/// inside it make up the output.
pub proof fn lemma_still_open(out: Seq<u8>, len_pos: int)
    requires
        is_open(out, len_pos),
    ensures
        out == out.take(len_pos - 3) + wire::envelope_header(0) + out.skip(len_pos + 4),
{
    wire::lemma_open_header();
}

/// The object with one entry, piece by piece.
proof fn lemma_one_entry(name: Seq<char>, value: Tree)
    ensures
        ({
            let whole = Tree::Object(seq![(Tree::Text(name), value)]);
            let start = seq![INDEF_MAP_START] + wire::encoded_text(name);
            &&& wire::refusal(whole) == wire::refusal(value)
            &&& wire::encoded(whole) == wire::envelope(
                start + wire::encoded(value) + seq![STOP_BYTE],
            )
            &&& wire::refusal(value) is Some ==> wire::begun(whole) == wire::envelope_header(0) + (
            start + wire::begun(value))
        }),
{
    let entries = seq![(Tree::Text(name), value)];
    let start = seq![INDEF_MAP_START] + wire::encoded_text(name);
    assert(entries[0] == (Tree::Text(name), value));
    reveal_with_fuel(wire::refusal, 2);
    reveal_with_fuel(wire::refusal_in_entries, 2);
    assert(wire::refusal_in_entries(entries) == wire::refusal(value));
    assert(wire::encoded_entries(entries) == wire::encoded_text(name) + wire::encoded(value)) by {
        reveal_with_fuel(wire::encoded_entries, 2);
    }
    assert(wire::object_payload(entries) == start + wire::encoded(value) + seq![STOP_BYTE]);
    if wire::refusal(value) is Some {
        assert(wire::begun_entries(entries) == wire::encoded_text(name) + wire::begun(value));
        assert(wire::begun(Tree::Object(entries)) == wire::envelope_header(0) + (start
            + wire::begun(value)));
    }
}

/// One open array or object. Its envelope gets its length, and its items get
/// their stop byte, at the end.
pub struct Compound<'a> {
    pub ser: &'a mut Serializer,
    pub len_pos: usize,
}

impl<'a> Compound<'a> {
    /// The header of the envelope is there, and has no length yet.
    pub open spec fn wf(&self) -> bool {
        is_open(self.ser.out@, self.len_pos as int)
    }

    /// What the output held before this compound was opened.
    pub open spec fn before(&self) -> Seq<u8> {
        self.ser.out@.take(self.len_pos - 3)
    }

    /// What has been written inside this compound's envelope.
    pub open spec fn payload(&self) -> Seq<u8> {
        self.ser.out@.skip(self.len_pos + 4)
    }

    /// Writes the stop byte and closes the envelope.
    pub fn finish(self) -> (r: Result<(), Error>)
        requires
            self.wf(),
        ensures
            r is Ok,
            final(self.ser).out@ == self.before() + wire::envelope(
                self.payload() + seq![STOP_BYTE],
            ),
    {
        self.ser.out.push(STOP_BYTE);
        self.ser.close_envelope(self.len_pos);
        Ok(())
    }

    /// Ends the array or object.
    pub fn end(self) -> (r: Result<(), Error>)
        requires
            self.wf(),
        ensures
            r is Ok,
            final(self.ser).out@ == self.before() + wire::envelope(
                self.payload() + seq![STOP_BYTE],
            ),
    {
        self.finish()
    }

    /// Writes the next item of an array.
    pub fn serialize_element(&mut self, value: &Value) -> (r: Result<(), Error>)
        requires
            old(self).wf(),
        ensures
            final(self).wf(),
            final(self).before() == old(self).before(),
            match r {
                Ok(_) => {
                    &&& wire::refusal(value@) is None
                    &&& final(self).payload() == old(self).payload() + wire::encoded(value@)
                },
                Err(e) => {
                    &&& wire::refusal(value@) == Some(e.0@)
                    &&& final(self).payload() == old(self).payload() + wire::begun(value@)
                },
            },
            *final(final(self).ser) == *final(old(self).ser),
        decreases value, 1int,
    {
        value.serialize(self.ser)
    }

    /// Writes the key of the next entry of an object.
    pub fn serialize_key(&mut self, key: &Value) -> (r: Result<(), Error>)
        requires
            old(self).wf(),
        ensures
            final(self).wf(),
            final(self).before() == old(self).before(),
            match r {
                Ok(_) => {
                    &&& wire::refusal(key@) is None
                    &&& final(self).payload() == old(self).payload() + wire::encoded(key@)
                },
                Err(e) => {
                    &&& wire::refusal(key@) == Some(e.0@)
                    &&& final(self).payload() == old(self).payload() + wire::begun(key@)
                },
            },
            *final(final(self).ser) == *final(old(self).ser),
        decreases key, 1int,
    {
        key.serialize(self.ser)
    }

    /// Writes the value of the next entry of an object.
    pub fn serialize_value(&mut self, value: &Value) -> (r: Result<(), Error>)
        requires
            old(self).wf(),
        ensures
            final(self).wf(),
            final(self).before() == old(self).before(),
            match r {
                Ok(_) => {
                    &&& wire::refusal(value@) is None
                    &&& final(self).payload() == old(self).payload() + wire::encoded(value@)
                },
                Err(e) => {
                    &&& wire::refusal(value@) == Some(e.0@)
                    &&& final(self).payload() == old(self).payload() + wire::begun(value@)
                },
            },
            *final(final(self).ser) == *final(old(self).ser),
        decreases value, 1int,
    {
        value.serialize(self.ser)
    }

    /// Writes text where an item, a key or a value is due. The name of a field
    /// is such a text.
    pub fn write_text(&mut self, text: &str)
        requires
            old(self).wf(),
        ensures
            final(self).wf(),
            final(self).before() == old(self).before(),
            final(self).payload() == old(self).payload() + wire::encoded_text(text@),
            *final(final(self).ser) == *final(old(self).ser),
    {
        self.ser.write_str(text);
    }

    /// Writes an unsigned integer where an item, a key or a value is due.
    pub fn write_unsigned(&mut self, v: u64)
        requires
            old(self).wf(),
        ensures
            final(self).wf(),
            final(self).before() == old(self).before(),
            final(self).payload() == old(self).payload() + wire::encoded_unsigned(v),
            *final(final(self).ser) == *final(old(self).ser),
    {
        let _ = self.ser.serialize_u64(v);
    }

    /// Writes bytes that already are the encoding of an item, a key or a value.
    pub fn write_encoded(&mut self, bytes: &[u8])
        requires
            old(self).wf(),
        ensures
            final(self).wf(),
            final(self).before() == old(self).before(),
            final(self).payload() == old(self).payload() + bytes@,
            *final(final(self).ser) == *final(old(self).ser),
    {
        self.ser.out.extend_from_slice(bytes);
    }

    /// Writes the next field of a struct.
    pub fn serialize_field(&mut self, key: &'static str, value: &Value) -> (r: Result<(), Error>)
        requires
            old(self).wf(),
        ensures
            final(self).wf(),
            final(self).before() == old(self).before(),
            match r {
                Ok(_) => {
                    &&& wire::refusal(value@) is None
                    &&& final(self).payload() == old(self).payload() + wire::encoded_text(key@)
                        + wire::encoded(value@)
                },
                Err(e) => {
                    &&& wire::refusal(value@) == Some(e.0@)
                    &&& final(self).payload() == old(self).payload() + wire::encoded_text(key@)
                        + wire::begun(value@)
                },
            },
            *final(final(self).ser) == *final(old(self).ser),
    {
        self.write_text(key);
        value.serialize(self.ser)
    }

    /// Writes the items of an array.
    pub fn serialize_elements(&mut self, items: &Vec<Value>) -> (r: Result<(), Error>)
        requires
            old(self).wf(),
        ensures
            final(self).wf(),
            final(self).before() == old(self).before(),
            ({
                let trees = value::views(items@);
                match r {
                    Ok(_) => {
                        &&& wire::refusal_in_items(trees) is None
                        &&& final(self).payload() == old(self).payload() + wire::encoded_items(
                            trees,
                        )
                    },
                    Err(e) => {
                        &&& wire::refusal_in_items(trees) == Some(e.0@)
                        &&& final(self).payload() == old(self).payload() + wire::begun_items(trees)
                    },
                }
            }),
            *final(final(self).ser) == *final(old(self).ser),
        decreases items, 0int,
    {
        let ghost trees = value::views(items@);
        let mut i: usize = 0;
        assert(trees.skip(0) == trees);
        while i < items.len()
            invariant
                i <= items.len(),
                trees == value::views(items@),
                self.wf(),
                self.before() == old(self).before(),
                self.payload() + wire::encoded_items(trees.skip(i as int)) == old(self).payload()
                    + wire::encoded_items(trees),
                self.payload() + wire::begun_items(trees.skip(i as int)) == old(self).payload()
                    + wire::begun_items(trees),
                wire::refusal_in_items(trees.skip(i as int)) == wire::refusal_in_items(trees),
                *final(self.ser) == *final(old(self).ser),
            decreases items.len() - i,
        {
            let ghost rest = trees.skip(i as int);
            assert(rest[0] == items@[i as int]@);
            assert(rest.subrange(1, rest.len() as int) == trees.skip(i + 1));
            self.serialize_element(&items[i])?;
            i += 1;
        }
        Ok(())
    }

    /// Writes the entries of an object.
    pub fn serialize_entries(&mut self, entries: &Vec<(Value, Value)>) -> (r: Result<(), Error>)
        requires
            old(self).wf(),
        ensures
            final(self).wf(),
            final(self).before() == old(self).before(),
            ({
                let trees = value::entry_views(entries@);
                match r {
                    Ok(_) => {
                        &&& wire::refusal_in_entries(trees) is None
                        &&& final(self).payload() == old(self).payload() + wire::encoded_entries(
                            trees,
                        )
                    },
                    Err(e) => {
                        &&& wire::refusal_in_entries(trees) == Some(e.0@)
                        &&& final(self).payload() == old(self).payload() + wire::begun_entries(
                            trees,
                        )
                    },
                }
            }),
            *final(final(self).ser) == *final(old(self).ser),
        decreases entries, 0int,
    {
        let ghost trees = value::entry_views(entries@);
        let mut i: usize = 0;
        assert(trees.skip(0) == trees);
        while i < entries.len()
            invariant
                i <= entries.len(),
                trees == value::entry_views(entries@),
                self.wf(),
                self.before() == old(self).before(),
                self.payload() + wire::encoded_entries(trees.skip(i as int)) == old(self).payload()
                    + wire::encoded_entries(trees),
                self.payload() + wire::begun_entries(trees.skip(i as int)) == old(self).payload()
                    + wire::begun_entries(trees),
                wire::refusal_in_entries(trees.skip(i as int)) == wire::refusal_in_entries(trees),
                *final(self.ser) == *final(old(self).ser),
            decreases entries.len() - i,
        {
            let ghost rest = trees.skip(i as int);
            assert(rest[0] == (entries@[i as int].0@, entries@[i as int].1@));
            assert(rest.subrange(1, rest.len() as int) == trees.skip(i + 1));
            self.serialize_key(&entries[i].0)?;
            self.serialize_value(&entries[i].1)?;
            i += 1;
        }
        Ok(())
    }
}

/// An open array or object: what was there before, the header of an envelope
/// without a length, and what was written inside make up the output.
pub proof fn law_open_compound<'a>(c: Compound<'a>)
    requires
        c.wf(),
    ensures
        old(c.ser).out@ == c.before() + seq![0xD8u8, 0x18, 0x5A, 0, 0, 0, 0] + c.payload(),
        c.before().len() + 3 == c.len_pos,
{
    lemma_still_open(c.ser.out@, c.len_pos as int);
    wire::lemma_open_header();
}

/// What looks like the open header of an envelope is one.
pub proof fn law_open_header(before: Seq<u8>, inside: Seq<u8>)
    ensures
        is_open(
            before + seq![0xD8u8, 0x18, 0x5A, 0, 0, 0, 0] + inside,
            before.len() as int + 3,
        ),
{
}

} // verus!
