//! Chrome DevTools' CBOR dialect ("crdtp" CBOR).
//!
//! The dialect differs from RFC 7049 CBOR in a few deliberate ways: maps and
//! arrays have indefinite length and are wrapped in an envelope that gives
//! their size, integers are signed 64-bit at most, and text is UTF-8.

pub mod be;
pub mod consts;
pub mod de;
pub mod laws;
pub mod meaning;
pub mod read;
pub mod reading;
pub mod ser;
pub mod value;
pub mod wire;

pub use de::{from_slice, message_len};
pub use ser::to_vec;
