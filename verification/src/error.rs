//! The errors of reading.

use vstd::prelude::*;

verus! {

/// Why a read failed.
#[derive(Debug, Clone, PartialEq)]
pub enum NbtError {
    /// The root's tag is none that the dialect accepts; the tag.
    WrongRootType(u8),
    /// A tag outside the tag space; the tag.
    UnknownType(u8),
    /// A read past the end: the cursor, the width asked for, the buffer's length.
    CursorOverflow(usize, usize, usize),
    /// A variable-length 32-bit integer of more than 5 bytes; what was read so far.
    VarIntTooBig(usize),
    /// A variable-length 64-bit integer of more than 10 bytes; what was read so far.
    VarlongTooBig(usize),
    /// The elements of a list differ in type.
    ListTypeNotSame(Vec<u8>),
    /// A list or an array declares a negative length: its tag and the length.
    LenNegative(u8, i32),
    /// Another type was expected: the expected tag and the one found.
    IncorrectType(u8, u8),
    /// A string is not Modified UTF-8.
    Mutf8Error,
    /// Lists and compounds nest deeper than the limit; the limit.
    NbtDepthTooBig(usize),
}

} // verus!
