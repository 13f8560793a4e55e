//! The tag space shared by all dialects.

use vstd::prelude::*;

verus! {

/// Ends a compound.
pub const TAG_END: u8 = 0;

/// One signed byte.
pub const TAG_BYTE: u8 = 1;

/// A signed 16-bit integer.
pub const TAG_SHORT: u8 = 2;

/// A signed 32-bit integer.
pub const TAG_INT: u8 = 3;

/// A signed 64-bit integer.
pub const TAG_LONG: u8 = 4;

/// A 32-bit IEEE 754 number.
pub const TAG_FLOAT: u8 = 5;

/// A 64-bit IEEE 754 number.
pub const TAG_DOUBLE: u8 = 6;

/// A length, then that many bytes.
pub const TAG_BYTE_ARRAY: u8 = 7;

/// A length, then that many bytes of Modified UTF-8.
pub const TAG_STRING: u8 = 8;

/// An element tag, a count, then that many unnamed payloads of that tag.
pub const TAG_LIST: u8 = 9;

/// Named members, ended by `TAG_END`.
pub const TAG_COMPOUND: u8 = 10;

/// A length, then that many 32-bit integers.
pub const TAG_INT_ARRAY: u8 = 11;

/// A length, then that many 64-bit integers.
pub const TAG_LONG_ARRAY: u8 = 12;

} // verus!
