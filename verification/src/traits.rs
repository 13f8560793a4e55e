//! What the dialects and the tags have in common.

use vstd::prelude::*;
use vstd::string::StringExecFns;
use crate::text::{decimal, push_decimal};
use crate::borrow::layout::root_at;
use crate::borrow::bounds::within;
use crate::borrow::own::{own_value_with, owned};
use crate::borrow::read::read_borrowed;
use crate::borrow::{BorrowNbtValue, BorrowTree};
use crate::error::NbtError;
use crate::nbt_consts::TAG_END;
use crate::nbt_version::{BedrockDisk, BedrockNetVarInt, Dialect, Java, JavaNetAfter1_20_2};
use crate::reader::NbtReader;
use crate::value::NbtValue;
use crate::writer::{enc_root, extends, unwritable, Unwritable};

verus! {

/// Whether a byte is a tag of the format.
pub open spec fn valid_tag(tag: u8) -> bool {
    tag <= 12
}

/// The name of a tag: that of its type and the tag in brackets, or, for a
/// byte that is no tag, a note that the type is unknown.
pub open spec fn tag_name(tag: u8) -> Seq<char> {
    if tag == 0 {
        "NBT_End(0)"@
    } else if tag == 1 {
        "NBT_Byte(1)"@
    } else if tag == 2 {
        "NBT_Short(2)"@
    } else if tag == 3 {
        "NBT_Int(3)"@
    } else if tag == 4 {
        "NBT_Long(4)"@
    } else if tag == 5 {
        "NBT_Float(5)"@
    } else if tag == 6 {
        "NBT_Double(6)"@
    } else if tag == 7 {
        "NBT_ByteArray(7)"@
    } else if tag == 8 {
        "NBT_String(8)"@
    } else if tag == 9 {
        "NBT_List(9)"@
    } else if tag == 10 {
        "NBT_Compound(10)"@
    } else if tag == 11 {
        "NBT_IntArray(11)"@
    } else if tag == 12 {
        "NBT_LongArray(12)"@
    } else {
        "未知类型("@ + decimal(tag as nat) + ")"@
    }
}

/// What a tag says of itself.
pub trait NbtTypeConversion {
    /// The tag as a byte.
    spec fn tag(&self) -> u8;

    /// The name of the tag.
    fn as_nbt_type_name(&self) -> (r: String)
        ensures
            r@ == tag_name(self.tag()),
    ;

    /// Whether this is a tag of the format, `TAG_END` among them.
    fn is_valid_nbt_type(&self) -> (r: bool)
        ensures
            r == valid_tag(self.tag()),
    ;

    /// Whether this is the tag of a value: any tag of the format but
    /// `TAG_END`.
    fn is_valid_nbt_data_type(&self) -> (r: bool)
        ensures
            r == (valid_tag(self.tag()) && self.tag() != TAG_END),
    ;

    /// Whether this is the tag of a list or a compound.
    fn is_list_or_compound(&self) -> (r: bool)
        ensures
            r == (self.tag() == 9 || self.tag() == 10),
    ;
}

impl NbtTypeConversion for u8 {
    open spec fn tag(&self) -> u8 {
        *self
    }

    fn as_nbt_type_name(&self) -> (r: String) {
        let known = match *self {
            0 => "NBT_End(0)",
            1 => "NBT_Byte(1)",
            2 => "NBT_Short(2)",
            3 => "NBT_Int(3)",
            4 => "NBT_Long(4)",
            5 => "NBT_Float(5)",
            6 => "NBT_Double(6)",
            7 => "NBT_ByteArray(7)",
            8 => "NBT_String(8)",
            9 => "NBT_List(9)",
            10 => "NBT_Compound(10)",
            11 => "NBT_IntArray(11)",
            12 => "NBT_LongArray(12)",
            _ => {
                let mut name = String::from_str("未知类型(");
                push_decimal(&mut name, *self as usize);
                name.append(")");
                return name;
            },
        };
        String::from_str(known)
    }

    fn is_valid_nbt_type(&self) -> (r: bool) {
        *self <= 12
    }

    fn is_valid_nbt_data_type(&self) -> (r: bool) {
        *self <= 12 && *self != TAG_END
    }

    fn is_list_or_compound(&self) -> (r: bool) {
        *self == 9 || *self == 10
    }
}

/// A dialect as a reader of index-only trees and a decoder of them.
pub trait NbtBorrowTrait {
    /// The dialect.
    spec fn dialect() -> Dialect;

    /// Reads the tree whose root tag stands at the cursor. Nothing is
    /// decoded: the tree holds offsets into the reader's buffer.
    fn from_reader(reader: &mut NbtReader) -> (r: Result<BorrowNbtValue, NbtError>)
        ensures
            final(reader).data@ == old(reader).data@,
            match r {
                Ok(tree) => root_at(old(reader).data@, Self::dialect(), old(reader).cursor as int)
                    == Ok::<(BorrowTree, int), NbtError>((tree@, final(reader).cursor as int))
                    && within(old(reader).data@, Self::dialect(), tree@),
                Err(e) => root_at(old(reader).data@, Self::dialect(), old(reader).cursor as int)
                    == Err::<(BorrowTree, int), NbtError>(e),
            },
    ;

    /// Decodes a tree over the buffer that it was read from.
    fn read_data(value: &BorrowNbtValue, reader: &mut NbtReader) -> (r: NbtValue)
        requires
            within(old(reader).data@, Self::dialect(), value@),
        ensures
            final(reader).data@ == old(reader).data@,
            r@ == owned(old(reader).data@, Self::dialect(), value@),
    ;
}

impl NbtBorrowTrait for Java {
    open spec fn dialect() -> Dialect {
        Dialect::Java
    }

    fn from_reader(reader: &mut NbtReader) -> (r: Result<BorrowNbtValue, NbtError>) {
        read_borrowed(reader, Dialect::Java)
    }

    fn read_data(value: &BorrowNbtValue, reader: &mut NbtReader) -> (r: NbtValue) {
        own_value_with(value, reader, Dialect::Java)
    }
}

impl NbtBorrowTrait for JavaNetAfter1_20_2 {
    open spec fn dialect() -> Dialect {
        Dialect::JavaNetAfter1_20_2
    }

    fn from_reader(reader: &mut NbtReader) -> (r: Result<BorrowNbtValue, NbtError>) {
        read_borrowed(reader, Dialect::JavaNetAfter1_20_2)
    }

    fn read_data(value: &BorrowNbtValue, reader: &mut NbtReader) -> (r: NbtValue) {
        own_value_with(value, reader, Dialect::JavaNetAfter1_20_2)
    }
}

impl NbtBorrowTrait for BedrockDisk {
    open spec fn dialect() -> Dialect {
        Dialect::BedrockDisk
    }

    fn from_reader(reader: &mut NbtReader) -> (r: Result<BorrowNbtValue, NbtError>) {
        read_borrowed(reader, Dialect::BedrockDisk)
    }

    fn read_data(value: &BorrowNbtValue, reader: &mut NbtReader) -> (r: NbtValue) {
        own_value_with(value, reader, Dialect::BedrockDisk)
    }
}

impl NbtBorrowTrait for BedrockNetVarInt {
    open spec fn dialect() -> Dialect {
        Dialect::BedrockNetVarInt
    }

    fn from_reader(reader: &mut NbtReader) -> (r: Result<BorrowNbtValue, NbtError>) {
        read_borrowed(reader, Dialect::BedrockNetVarInt)
    }

    fn read_data(value: &BorrowNbtValue, reader: &mut NbtReader) -> (r: NbtValue) {
        own_value_with(value, reader, Dialect::BedrockNetVarInt)
    }
}

impl BorrowNbtValue {
    /// Reads the tree that `data` starts with, in the dialect `R`, and hands
    /// it out with the reader that stands behind it.
    pub fn from_binary<R: NbtBorrowTrait>(data: &[u8]) -> (r: Result<
        (NbtReader<'_>, BorrowNbtValue),
        NbtError,
    >)
        ensures
            match r {
                Ok((reader, tree)) => reader.data@ == data@ && root_at(data@, R::dialect(), 0)
                    == Ok::<(BorrowTree, int), NbtError>((tree@, reader.cursor as int))
                    && within(data@, R::dialect(), tree@),
                Err(e) => root_at(data@, R::dialect(), 0) == Err::<(BorrowTree, int), NbtError>(
                    e,
                ),
            },
    {
        let mut reader = NbtReader::new(data);
        match R::from_reader(&mut reader) {
            Ok(tree) => Ok((reader, tree)),
            Err(e) => Err(e),
        }
    }
}

impl NbtValue {
    /// Reads the tree that `data` starts with, in the dialect `R`, and
    /// decodes it.
    pub fn from_binary<R: NbtBorrowTrait>(data: &[u8]) -> (r: Result<NbtValue, NbtError>)
        ensures
            match r {
                Ok(value) => match root_at(data@, R::dialect(), 0) {
                    Ok((tree, _)) => value@ == owned(data@, R::dialect(), tree),
                    Err(_) => false,
                },
                Err(e) => root_at(data@, R::dialect(), 0) == Err::<(BorrowTree, int), NbtError>(
                    e,
                ),
            },
    {
        let mut reader = NbtReader::new(data);
        match R::from_reader(&mut reader) {
            Ok(tree) => Ok(R::read_data(&tree, &mut reader)),
            Err(e) => Err(e),
        }
    }
}

/// A dialect as a writer of decoded trees.
pub trait NbtWriteTrait: NbtBorrowTrait {
    /// Puts the tree behind `buff` as the dialect writes it.
    fn write_to(value: &NbtValue, buff: &mut Vec<u8>) -> (r: Result<(), NbtError>)
        ensures
            match r {
                Ok(_) => unwritable(value@, Self::dialect()) is None && final(buff)@ == old(buff)@ + enc_root(value@, Self::dialect()),
                Err(e) => match unwritable(value@, Self::dialect()) {
                    Some(Unwritable::Root(tag)) => e == NbtError::WrongRootType(tag) && final(buff)@
                        == old(buff)@,
                    Some(Unwritable::List(tags)) => e is ListTypeNotSame
                        && e->ListTypeNotSame_0@ == tags && extends(final(buff)@, old(buff)@),
                    None => false,
                },
            },
    ;

    /// The tree as the dialect writes it.
    fn to_bytes(value: &NbtValue) -> (r: Result<Vec<u8>, NbtError>)
        ensures
            match r {
                Ok(bytes) => unwritable(value@, Self::dialect()) is None && bytes@ == enc_root(
                    value@,
                    Self::dialect(),
                ),
                Err(e) => match unwritable(value@, Self::dialect()) {
                    Some(Unwritable::Root(tag)) => e == NbtError::WrongRootType(tag),
                    Some(Unwritable::List(tags)) => e is ListTypeNotSame
                        && e->ListTypeNotSame_0@ == tags,
                    None => false,
                },
            },
    ;
}

impl NbtWriteTrait for Java {
    fn write_to(value: &NbtValue, buff: &mut Vec<u8>) -> (r: Result<(), NbtError>) {
        value.write_to_with(buff, Dialect::Java)
    }

    fn to_bytes(value: &NbtValue) -> (r: Result<Vec<u8>, NbtError>) {
        value.to_binary_with(Dialect::Java)
    }
}

impl NbtWriteTrait for JavaNetAfter1_20_2 {
    fn write_to(value: &NbtValue, buff: &mut Vec<u8>) -> (r: Result<(), NbtError>) {
        value.write_to_with(buff, Dialect::JavaNetAfter1_20_2)
    }

    fn to_bytes(value: &NbtValue) -> (r: Result<Vec<u8>, NbtError>) {
        value.to_binary_with(Dialect::JavaNetAfter1_20_2)
    }
}

impl NbtWriteTrait for BedrockDisk {
    fn write_to(value: &NbtValue, buff: &mut Vec<u8>) -> (r: Result<(), NbtError>) {
        value.write_to_with(buff, Dialect::BedrockDisk)
    }

    fn to_bytes(value: &NbtValue) -> (r: Result<Vec<u8>, NbtError>) {
        value.to_binary_with(Dialect::BedrockDisk)
    }
}

impl NbtWriteTrait for BedrockNetVarInt {
    fn write_to(value: &NbtValue, buff: &mut Vec<u8>) -> (r: Result<(), NbtError>) {
        value.write_to_with(buff, Dialect::BedrockNetVarInt)
    }

    fn to_bytes(value: &NbtValue) -> (r: Result<Vec<u8>, NbtError>) {
        value.to_binary_with(Dialect::BedrockNetVarInt)
    }
}

impl NbtValue {
    /// Puts the tree behind `buff` as the dialect `W` writes it.
    pub fn write_to<W: NbtWriteTrait>(&self, buff: &mut Vec<u8>) -> (r: Result<(), NbtError>)
        ensures
            match r {
                Ok(_) => unwritable(self@, W::dialect()) is None && final(buff)@ == old(buff)@
                    + enc_root(self@, W::dialect()),
                Err(e) => match unwritable(self@, W::dialect()) {
                    Some(Unwritable::Root(tag)) => e == NbtError::WrongRootType(tag) && final(buff)@
                        == old(buff)@,
                    Some(Unwritable::List(tags)) => e is ListTypeNotSame
                        && e->ListTypeNotSame_0@ == tags && extends(final(buff)@, old(buff)@),
                    None => false,
                },
            },
    {
        W::write_to(self, buff)
    }

    /// The tree as the dialect `W` writes it.
    pub fn to_binary<W: NbtWriteTrait>(&self) -> (r: Result<Vec<u8>, NbtError>)
        ensures
            match r {
                Ok(bytes) => unwritable(self@, W::dialect()) is None && bytes@ == enc_root(
                    self@,
                    W::dialect(),
                ),
                Err(e) => match unwritable(self@, W::dialect()) {
                    Some(Unwritable::Root(tag)) => e == NbtError::WrongRootType(tag),
                    Some(Unwritable::List(tags)) => e is ListTypeNotSame
                        && e->ListTypeNotSame_0@ == tags,
                    None => false,
                },
            },
    {
        W::to_bytes(self)
    }
}

} // verus!
