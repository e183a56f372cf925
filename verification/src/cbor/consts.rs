//! Byte constants of the dialect.
//!
//! An initial byte packs a 3-bit major type (high bits) and 5 bits of
//! additional information (low bits): `initial = (major << 5) | info`.

use vstd::prelude::*;

verus! {

pub const MAJOR_TYPE_SHIFT: u8 = 5;

// Major types (RFC 7049, section 2.1).
pub const MAJOR_UNSIGNED: u8 = 0;
pub const MAJOR_NEGATIVE: u8 = 1;
pub const MAJOR_BYTE_STRING: u8 = 2;
pub const MAJOR_STRING: u8 = 3;
pub const MAJOR_ARRAY: u8 = 4;
pub const MAJOR_MAP: u8 = 5;
pub const MAJOR_TAG: u8 = 6;
pub const MAJOR_SIMPLE: u8 = 7;

// Additional-information codes that mean "payload follows in N bytes".
pub const INFO_1BYTE: u8 = 24;
pub const INFO_2BYTES: u8 = 25;
pub const INFO_4BYTES: u8 = 26;
pub const INFO_8BYTES: u8 = 27;
/// Additional information of an indefinite-length item and of the stop byte.
pub const INFO_INDEFINITE: u8 = 31;
pub const INFO_MASK: u8 = 0x1f;
pub const MAJOR_MASK: u8 = 0xe0;

// Envelope: major type 6 with one payload byte, the tag value 24, then the
// initial byte of a byte string with a 32-bit length.
pub const INITIAL_BYTE_ENVELOPE: u8 = 0xD8;
pub const CBOR_ENVELOPE_TAG: u8 = 0x18;
pub const INITIAL_BYTE_32BIT_BYTESTRING: u8 = 0x5A;

// Indefinite-length compounds and the stop byte.
pub const INDEF_ARRAY_START: u8 = 0x9F;
pub const INDEF_MAP_START: u8 = 0xBF;
pub const STOP_BYTE: u8 = 0xFF;

// Simple values.
pub const ENCODED_FALSE: u8 = 0xF4;
pub const ENCODED_TRUE: u8 = 0xF5;
pub const ENCODED_NULL: u8 = 0xF6;
pub const INITIAL_BYTE_DOUBLE: u8 = 0xFB;

/// Tag 22: a byte string that is to become base64 where text is expected.
pub const EXPECTED_CONVERSION_TO_BASE64_TAG: u8 = 0xD6;

/// The major type in an initial byte.
pub open spec fn major_of(initial: u8) -> u8 {
    initial / 32
}

/// The additional information in an initial byte.
pub open spec fn info_of(initial: u8) -> u8 {
    initial % 32
}

/// The initial byte with the given major type and additional information.
pub open spec fn initial_byte(major: int, info: int) -> u8 {
    (major * 32 + info) as u8
}

/// The two halves of an initial byte.
pub fn split_initial(initial: u8) -> (halves: (u8, u8))
    ensures
        halves.0 == major_of(initial),
        halves.1 == info_of(initial),
{
    assert((initial & 0xe0u8) >> 5u8 == initial / 32) by (bit_vector);
    assert(initial & 0x1fu8 == initial % 32) by (bit_vector);
    ((initial & MAJOR_MASK) >> MAJOR_TYPE_SHIFT, initial & INFO_MASK)
}

/// How a message in the dialect begins: 0xD8, then either 0x18 0x5A or a bare
/// 0x5A.
pub open spec fn looks_like_cbor(msg: Seq<u8>) -> bool {
    &&& msg.len() >= 2
    &&& msg[0] == INITIAL_BYTE_ENVELOPE
    &&& (msg[1] == INITIAL_BYTE_32BIT_BYTESTRING || (msg.len() >= 3 && msg[1] == CBOR_ENVELOPE_TAG
        && msg[2] == INITIAL_BYTE_32BIT_BYTESTRING))
}

/// True iff `msg` begins like an envelope (0xD8, then either the 0x18 tag byte
/// and 0x5A, or a bare 0x5A for the legacy one-byte form).
pub fn is_cbor_message(msg: &[u8]) -> (yes: bool)
    ensures
        yes == looks_like_cbor(msg@),
{
    msg.len() >= 2 && msg[0] == INITIAL_BYTE_ENVELOPE && (msg[1] == INITIAL_BYTE_32BIT_BYTESTRING
        || (msg.len() >= 3 && msg[1] == CBOR_ENVELOPE_TAG && msg[2]
        == INITIAL_BYTE_32BIT_BYTESTRING))
}

/// The bytes and numbers of the dialect.
pub proof fn law_bytes_of_the_dialect()
    ensures
        MAJOR_TYPE_SHIFT == 5,
        MAJOR_UNSIGNED == 0,
        MAJOR_NEGATIVE == 1,
        MAJOR_BYTE_STRING == 2,
        MAJOR_STRING == 3,
        MAJOR_ARRAY == 4,
        MAJOR_MAP == 5,
        MAJOR_TAG == 6,
        MAJOR_SIMPLE == 7,
        INFO_1BYTE == 24,
        INFO_2BYTES == 25,
        INFO_4BYTES == 26,
        INFO_8BYTES == 27,
        INFO_INDEFINITE == 31,
        INFO_MASK == 0x1F,
        MAJOR_MASK == 0xE0,
        INITIAL_BYTE_ENVELOPE == 0xD8,
        CBOR_ENVELOPE_TAG == 0x18,
        INITIAL_BYTE_32BIT_BYTESTRING == 0x5A,
        INDEF_ARRAY_START == 0x9F,
        INDEF_MAP_START == 0xBF,
        STOP_BYTE == 0xFF,
        ENCODED_FALSE == 0xF4,
        ENCODED_TRUE == 0xF5,
        ENCODED_NULL == 0xF6,
        INITIAL_BYTE_DOUBLE == 0xFB,
        EXPECTED_CONVERSION_TO_BASE64_TAG == 0xD6,
{
}

} // verus!
