//! Bounds-checked reading of NBT, a nested, typed binary tree format, in its
//! four wire dialects: an index-only tree of buffer offsets is built first,
//! and decoded into an owned tree of values on demand.
//!
//! - [`reader`] is the cursor: every read is checked against the buffer.
//! - [`nbt_version`] holds the dialects, [`nbt_consts`] the tags.
//! - [`borrow`] holds the index-only tree, the format as functions of a
//!   buffer ([`borrow::layout`]), the reader of the tree
//!   ([`borrow::read`]), the decoder ([`borrow::own`]) and what holds of
//!   every buffer ([`borrow::laws`]).
//! - [`value`] is the decoded tree, [`mutf8`] its strings.
//! - [`writer`] writes a decoded tree, and [`round_trip`] shows that what
//!   was written is read back.
//!
//! Neither the reader nor the decoder calls itself: the nesting of the
//! input costs heap, and is bounded by [`RECURSE_LIMIT`].

use vstd::prelude::*;

pub mod borrow;
pub mod error;
pub mod mutf8;
pub mod nbt_consts;
pub mod nbt_version;
pub mod reader;
pub mod round_trip;
pub mod text;
pub mod traits;
pub mod value;
pub mod wire;
pub mod writer;

pub use error::NbtError;
pub use mutf8::Mutf8String;
pub use reader::NbtReader;
pub use value::NbtValue;

verus! {

/// The one-byte discriminant of a node's type.
pub type NbtTypeId = u8;

/// What every fallible operation of this library returns.
pub type NbtResult<T> = Result<T, NbtError>;

/// The deepest nesting of lists and compounds that is read.
pub const RECURSE_LIMIT: usize = 1024;

} // verus!
