//! The four wire dialects. Each is a fixed set of answers: the byte order of
//! numbers, how lengths are written, and what the root may be.

use vstd::prelude::*;

verus! {

/// Most of what the Java edition reads and writes: big-endian, fixed-width
/// lengths, a named compound as root.
#[derive(Debug, Clone, Copy, PartialEq, Eq)]
pub struct Java;

/// What the Java edition sends over the network since protocol 764: as
/// `Java`, but the root compound has no name.
#[derive(Debug, Clone, Copy, PartialEq, Eq)]
pub struct JavaNetAfter1_20_2;

/// What the Bedrock edition stores: little-endian, fixed-width lengths, a
/// named compound or a list as root.
#[derive(Debug, Clone, Copy, PartialEq, Eq)]
pub struct BedrockDisk;

/// What the Bedrock edition sends over the network: little-endian numbers,
/// lengths as variable-length integers, a named compound as root.
#[derive(Debug, Clone, Copy, PartialEq, Eq)]
pub struct BedrockNetVarInt;

/// A dialect as a value.
#[derive(Debug, Clone, Copy, PartialEq, Eq, Structural)]
pub enum Dialect {
    /// See [`Java`].
    Java,
    /// See [`JavaNetAfter1_20_2`].
    JavaNetAfter1_20_2,
    /// See [`BedrockDisk`].
    BedrockDisk,
    /// See [`BedrockNetVarInt`].
    BedrockNetVarInt,
}

impl Dialect {
    /// Whether numbers have their lowest byte first.
    pub open spec fn little_endian(self) -> bool {
        self == Dialect::BedrockDisk || self == Dialect::BedrockNetVarInt
    }

    /// Whether lengths are variable-length integers: zig-zag for the counts
    /// of lists and arrays, plain for the lengths of strings and names.
    pub open spec fn var_len(self) -> bool {
        self == Dialect::BedrockNetVarInt
    }

    /// Whether a root compound has a name.
    pub open spec fn root_named(self) -> bool {
        self != Dialect::JavaNetAfter1_20_2
    }

    /// Whether the root may be a list.
    pub open spec fn root_list(self) -> bool {
        self == Dialect::BedrockDisk
    }

    /// Whether numbers have their lowest byte first.
    pub fn is_little_endian(&self) -> (r: bool)
        ensures
            r == self.little_endian(),
    {
        match self {
            Dialect::BedrockDisk | Dialect::BedrockNetVarInt => true,
            _ => false,
        }
    }

    /// Whether lengths are variable-length integers.
    pub fn has_var_len(&self) -> (r: bool)
        ensures
            r == self.var_len(),
    {
        match self {
            Dialect::BedrockNetVarInt => true,
            _ => false,
        }
    }

    /// Whether a root compound has a name.
    pub fn has_root_name(&self) -> (r: bool)
        ensures
            r == self.root_named(),
    {
        match self {
            Dialect::JavaNetAfter1_20_2 => false,
            _ => true,
        }
    }

    /// Whether the root may be a list.
    pub fn allows_root_list(&self) -> (r: bool)
        ensures
            r == self.root_list(),
    {
        match self {
            Dialect::BedrockDisk => true,
            _ => false,
        }
    }
}

} // verus!
