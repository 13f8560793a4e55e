//! The way back: a decoded tree as the bytes that a dialect writes, and
//! variable-length integers as bytes.

use vstd::prelude::*;
use crate::error::NbtError;
use crate::mutf8::Mutf8String;
use crate::nbt_consts::{TAG_COMPOUND, TAG_END, TAG_LIST};
use crate::nbt_version::Dialect;
use crate::value::{named_trees, tag_of, value_trees, NbtValue, ValueTree};
use crate::wire::{
    group_weight, lemma_group_weights, signed32, var_ended, var_groups, var_i32_at, var_i64_at,
    var_span, zigzag,
};

verus! {

/// The bytes of a variable-length integer: groups of seven bits, the lowest
/// first, each byte but the last with its top bit set.
pub open spec fn var_bytes(v: nat) -> Seq<u8>
    decreases v,
{
    if v < 128 {
        seq![v as u8]
    } else {
        seq![(v % 128 + 128) as u8] + var_bytes(v / 128)
    }
}

/// The bit pattern of a signed 32-bit number, as a number.
pub open spec fn pattern32(v: int) -> nat {
    if v < 0 {
        (v + 0x1_0000_0000) as nat
    } else {
        v as nat
    }
}

/// The bit pattern of a signed 64-bit number, as a number.
pub open spec fn pattern64(v: int) -> nat {
    if v < 0 {
        (v + 0x1_0000_0000_0000_0000) as nat
    } else {
        v as nat
    }
}

/// The zig-zag code of a signed number: twice the number where it is not
/// negative, else one less than twice its distance from zero.
pub open spec fn zigzag_code(v: int) -> nat {
    if v < 0 {
        (-2 * v - 1) as nat
    } else {
        (2 * v) as nat
    }
}

/// The bytes of `v` as a variable-length integer.
fn var_u64_to_bytes(v: u64) -> (r: Vec<u8>)
    ensures
        r@ == var_bytes(v as nat),
{
    let mut buff: Vec<u8> = Vec::new();
    let mut rest: u64 = v;
    while rest >= 128
        invariant
            buff@ + var_bytes(rest as nat) == var_bytes(v as nat),
        decreases rest,
    {
        let ghost before = buff@;
        buff.push((rest % 128 + 128) as u8);
        assert(buff@ + var_bytes((rest / 128) as nat) =~= before + var_bytes(rest as nat));
        rest = rest / 128;
    }
    let ghost before = buff@;
    buff.push(rest as u8);
    assert(buff@ =~= before + var_bytes(rest as nat));
    buff
}

/// The bit pattern of `value` as a variable-length integer: one byte for
/// numbers up to 127, five bytes for a negative number.
pub fn var_i32_to_bytes(value: i32) -> (r: Vec<u8>)
    ensures
        r@ == var_bytes(pattern32(value as int)),
{
    let bits: u64 = if value < 0 {
        (value as i64 + 0x1_0000_0000) as u64
    } else {
        value as u64
    };
    var_u64_to_bytes(bits)
}

/// The bit pattern of `value` as a variable-length integer: one byte for
/// numbers up to 127, ten bytes for a negative number.
pub fn var_i64_to_bytes(value: i64) -> (r: Vec<u8>)
    ensures
        r@ == var_bytes(pattern64(value as int)),
{
    let bits: u64 = if value < 0 {
        (value as i128 + 0x1_0000_0000_0000_0000) as u64
    } else {
        value as u64
    };
    var_u64_to_bytes(bits)
}

/// The zig-zag code of `value` as a variable-length integer.
pub fn zigzag_var_i32_to_bytes(value: i32) -> (r: Vec<u8>)
    ensures
        r@ == var_bytes(zigzag_code(value as int)),
{
    let wide: i64 = value as i64;
    let code: u64 = if wide < 0 {
        (0 - wide - wide - 1) as u64
    } else {
        (wide + wide) as u64
    };
    var_u64_to_bytes(code)
}

/// The zig-zag code of `value` as a variable-length integer.
pub fn zigzag_var_i64_to_bytes(value: i64) -> (r: Vec<u8>)
    ensures
        r@ == var_bytes(zigzag_code(value as int)),
{
    let wide: i128 = value as i128;
    let code: u64 = if wide < 0 {
        (0 - wide - wide - 1) as u64
    } else {
        (wide + wide) as u64
    };
    var_u64_to_bytes(code)
}

/// The bit pattern of a signed byte, as a number.
pub open spec fn pattern8(v: int) -> int {
    if v < 0 {
        v + 0x100
    } else {
        v
    }
}

/// The bit pattern of a signed 16-bit number, as a number.
pub open spec fn pattern16(v: int) -> int {
    if v < 0 {
        v + 0x1_0000
    } else {
        v
    }
}

/// The two bytes of a number below 65536, the high one first.
pub open spec fn be16(v: int) -> Seq<u8> {
    seq![(v / 0x100) as u8, (v % 0x100) as u8]
}

/// The four bytes of a number below 2^32, the highest first.
pub open spec fn be32(v: int) -> Seq<u8> {
    be16(v / 0x1_0000) + be16(v % 0x1_0000)
}

/// The eight bytes of a number below 2^64, the highest first.
pub open spec fn be64(v: int) -> Seq<u8> {
    be32(v / 0x1_0000_0000) + be32(v % 0x1_0000_0000)
}

/// The two bytes of a number below 65536, the low one first.
pub open spec fn le16(v: int) -> Seq<u8> {
    seq![(v % 0x100) as u8, (v / 0x100) as u8]
}

/// The four bytes of a number below 2^32, the lowest first.
pub open spec fn le32(v: int) -> Seq<u8> {
    le16(v % 0x1_0000) + le16(v / 0x1_0000)
}

/// The eight bytes of a number below 2^64, the lowest first.
pub open spec fn le64(v: int) -> Seq<u8> {
    le32(v % 0x1_0000_0000) + le32(v / 0x1_0000_0000)
}

/// The two bytes of a number below 65536 in the given byte order.
pub open spec fn n16(v: int, little: bool) -> Seq<u8> {
    if little {
        le16(v)
    } else {
        be16(v)
    }
}

/// The four bytes of a number below 2^32 in the given byte order.
pub open spec fn n32(v: int, little: bool) -> Seq<u8> {
    if little {
        le32(v)
    } else {
        be32(v)
    }
}

/// The eight bytes of a number below 2^64 in the given byte order.
pub open spec fn n64(v: int, little: bool) -> Seq<u8> {
    if little {
        le64(v)
    } else {
        be64(v)
    }
}

/// A count as it is written: its low 32 bits, in four bytes or, read as a
/// signed number, as a zig-zag variable-length integer.
pub open spec fn enc_count(n: nat, d: Dialect) -> Seq<u8> {
    if d.var_len() {
        var_bytes(zigzag_code(signed32(n as int % 0x1_0000_0000)))
    } else {
        n32(n as int % 0x1_0000_0000, d.little_endian())
    }
}

/// The length of a text as it is written: its low 16 bits in two bytes, or
/// its low 32 bits as a variable-length integer.
pub open spec fn enc_text_len(len: nat, d: Dialect) -> Seq<u8> {
    if d.var_len() {
        var_bytes((len as int % 0x1_0000_0000) as nat)
    } else {
        n16(len as int % 0x1_0000, d.little_endian())
    }
}

/// A text as it is written: its length, then its bytes.
pub open spec fn enc_text(bytes: Seq<u8>, d: Dialect) -> Seq<u8> {
    enc_text_len(bytes.len(), d) + bytes
}

/// Signed bytes as they are written.
pub open spec fn enc_i8s(items: Seq<i8>) -> Seq<u8> {
    Seq::new(items.len(), |k: int| pattern8(items[k] as int) as u8)
}

/// Signed 32-bit numbers as they are written: four bytes each.
pub open spec fn enc_i32s(items: Seq<i32>, little: bool) -> Seq<u8> {
    Seq::new(4 * items.len(), |k: int| n32(pattern32(items[k / 4] as int) as int, little)[k % 4])
}

/// Signed 64-bit numbers as they are written: eight bytes each.
pub open spec fn enc_i64s(items: Seq<i64>, little: bool) -> Seq<u8> {
    Seq::new(8 * items.len(), |k: int| n64(pattern64(items[k / 8] as int) as int, little)[k % 8])
}

/// The tag that a list declares for its elements: that of the first, and
/// `TAG_END` where there is none.
pub open spec fn list_tag(items: Seq<ValueTree>) -> u8 {
    if items.len() == 0 {
        TAG_END
    } else {
        tag_of(items[0])
    }
}

/// The payload of a value as the dialect `d` writes it.
pub open spec fn enc_payload(tree: ValueTree, d: Dialect) -> Seq<u8>
    decreases tree, 0nat,
{
    let little = d.little_endian();
    match tree {
        ValueTree::Byte(v) => seq![pattern8(v as int) as u8],
        ValueTree::Short(v) => n16(pattern16(v as int), little),
        ValueTree::Int(v) => n32(pattern32(v as int) as int, little),
        ValueTree::Long(v) => n64(pattern64(v as int) as int, little),
        ValueTree::Float(v) => n32(v as int, little),
        ValueTree::Double(v) => n64(v as int, little),
        ValueTree::ByteArray(items) => enc_count(items.len(), d) + enc_i8s(items),
        ValueTree::String(bytes) => enc_text(bytes, d),
        ValueTree::List(items) => seq![list_tag(items)] + enc_count(items.len(), d) + enc_items(
            items,
            0,
            d,
        ),
        ValueTree::Compound(_, members) => enc_members(members, 0, d) + seq![TAG_END],
        ValueTree::IntArray(items) => enc_count(items.len(), d) + enc_i32s(items, little),
        ValueTree::LongArray(items) => enc_count(items.len(), d) + enc_i64s(items, little),
    }
}

/// The payloads of the items from number `from` on, one behind the other.
pub open spec fn enc_items(items: Seq<ValueTree>, from: nat, d: Dialect) -> Seq<u8>
    decreases items, items.len() - from,
{
    if from >= items.len() {
        Seq::empty()
    } else {
        enc_payload(items[from as int], d) + enc_items(items, from + 1, d)
    }
}

/// The members from number `from` on as they are written: for each its
/// tag, its name and its payload.
pub open spec fn enc_members(members: Seq<(Seq<u8>, ValueTree)>, from: nat, d: Dialect) -> Seq<u8>
    decreases members, members.len() - from,
{
    if from >= members.len() {
        Seq::empty()
    } else {
        seq![tag_of(members[from as int].1)] + enc_text(members[from as int].0, d) + enc_payload(
            members[from as int].1,
            d,
        ) + enc_members(members, from + 1, d)
    }
}

/// The name that a root compound is written with: its own, or an empty one
/// where it has none.
pub open spec fn root_name(name: Option<Seq<u8>>) -> Seq<u8> {
    match name {
        Some(bytes) => bytes,
        None => Seq::empty(),
    }
}

/// A tree as the dialect `d` writes it: the tag of the root, the name of a
/// compound where the dialect gives the root a name, and the payload.
pub open spec fn enc_root(tree: ValueTree, d: Dialect) -> Seq<u8> {
    match tree {
        ValueTree::Compound(name, members) => seq![TAG_COMPOUND] + (if d.root_named() {
            enc_text(root_name(name), d)
        } else {
            Seq::empty()
        }) + enc_payload(tree, d),
        ValueTree::List(_) => seq![TAG_LIST] + enc_payload(tree, d),
        _ => Seq::empty(),
    }
}

/// The tags of the items of a list.
pub open spec fn tags_of(items: Seq<ValueTree>) -> Seq<u8> {
    Seq::new(items.len(), |i: int| tag_of(items[i]))
}

/// Whether the items of a list all have the tag of the first.
pub open spec fn uniform(items: Seq<ValueTree>) -> bool {
    forall|i: int| 0 <= i < items.len() ==> tag_of(#[trigger] items[i]) == tag_of(items[0])
}

/// The tags of the first list, in the order of writing, whose items differ
/// in tag: such a list cannot be written.
pub open spec fn mixed_list(tree: ValueTree) -> Option<Seq<u8>>
    decreases tree, 0nat,
{
    match tree {
        ValueTree::List(items) => if !uniform(items) {
            Some(tags_of(items))
        } else {
            mixed_in_items(items, 0)
        },
        ValueTree::Compound(_, members) => mixed_in_members(members, 0),
        _ => None,
    }
}

/// The first such list in the items from number `from` on.
pub open spec fn mixed_in_items(items: Seq<ValueTree>, from: nat) -> Option<Seq<u8>>
    decreases items, items.len() - from,
{
    if from >= items.len() {
        None
    } else {
        match mixed_list(items[from as int]) {
            Some(tags) => Some(tags),
            None => mixed_in_items(items, from + 1),
        }
    }
}

/// The first such list in the members from number `from` on.
pub open spec fn mixed_in_members(members: Seq<(Seq<u8>, ValueTree)>, from: nat) -> Option<
    Seq<u8>,
>
    decreases members, members.len() - from,
{
    if from >= members.len() {
        None
    } else {
        match mixed_list(members[from as int].1) {
            Some(tags) => Some(tags),
            None => mixed_in_members(members, from + 1),
        }
    }
}

/// Puts the two bytes of `v` behind `buff` in the given byte order.
fn push_n16(buff: &mut Vec<u8>, v: u16, little: bool)
    ensures
        final(buff)@ == old(buff)@ + n16(v as int, little),
{
    if little {
        buff.push((v % 0x100) as u8);
        buff.push((v / 0x100) as u8);
    } else {
        buff.push((v / 0x100) as u8);
        buff.push((v % 0x100) as u8);
    }
    assert(buff@ =~= old(buff)@ + n16(v as int, little));
}

/// Puts the four bytes of `v` behind `buff` in the given byte order.
fn push_n32(buff: &mut Vec<u8>, v: u32, little: bool)
    ensures
        final(buff)@ == old(buff)@ + n32(v as int, little),
{
    if little {
        push_n16(buff, (v % 0x1_0000) as u16, true);
        push_n16(buff, (v / 0x1_0000) as u16, true);
    } else {
        push_n16(buff, (v / 0x1_0000) as u16, false);
        push_n16(buff, (v % 0x1_0000) as u16, false);
    }
    assert(buff@ =~= old(buff)@ + n32(v as int, little));
}

/// Puts the eight bytes of `v` behind `buff` in the given byte order.
fn push_n64(buff: &mut Vec<u8>, v: u64, little: bool)
    ensures
        final(buff)@ == old(buff)@ + n64(v as int, little),
{
    if little {
        push_n32(buff, (v % 0x1_0000_0000) as u32, true);
        push_n32(buff, (v / 0x1_0000_0000) as u32, true);
    } else {
        push_n32(buff, (v / 0x1_0000_0000) as u32, false);
        push_n32(buff, (v % 0x1_0000_0000) as u32, false);
    }
    assert(buff@ =~= old(buff)@ + n64(v as int, little));
}

/// Puts `bytes` behind `buff`.
fn push_all(buff: &mut Vec<u8>, bytes: &[u8])
    ensures
        final(buff)@ == old(buff)@ + bytes@,
{
    let mut i: usize = 0;
    assert(buff@ =~= old(buff)@ + bytes@.take(0));
    while i < bytes.len()
        invariant
            i <= bytes@.len(),
            buff@ == old(buff)@ + bytes@.take(i as int),
        decreases bytes@.len() - i,
    {
        buff.push(bytes[i]);
        i += 1;
        assert(buff@ =~= old(buff)@ + bytes@.take(i as int));
    }
    assert(bytes@.take(i as int) =~= bytes@);
}

/// The bit pattern of a signed byte.
fn to_u8(v: i8) -> (r: u8)
    ensures
        r == pattern8(v as int),
{
    if v < 0 {
        (v as i16 + 0x100) as u8
    } else {
        v as u8
    }
}

/// The bit pattern of a signed 16-bit number.
fn to_u16(v: i16) -> (r: u16)
    ensures
        r == pattern16(v as int),
{
    if v < 0 {
        (v as i32 + 0x1_0000) as u16
    } else {
        v as u16
    }
}

/// The bit pattern of a signed 32-bit number.
fn to_u32(v: i32) -> (r: u32)
    ensures
        r == pattern32(v as int),
{
    if v < 0 {
        (v as i64 + 0x1_0000_0000) as u32
    } else {
        v as u32
    }
}

/// The bit pattern of a signed 64-bit number.
fn to_u64(v: i64) -> (r: u64)
    ensures
        r == pattern64(v as int),
{
    if v < 0 {
        (v as i128 + 0x1_0000_0000_0000_0000) as u64
    } else {
        v as u64
    }
}

/// Puts a count behind `buff`.
fn write_count(buff: &mut Vec<u8>, n: usize, d: Dialect)
    ensures
        final(buff)@ == old(buff)@ + enc_count(n as nat, d),
{
    let low: u32 = ((n as u64) % 0x1_0000_0000) as u32;
    if d.has_var_len() {
        let bytes = zigzag_var_i32_to_bytes(crate::reader::to_i32(low));
        push_all(buff, bytes.as_slice());
    } else {
        push_n32(buff, low, d.is_little_endian());
    }
}

/// Puts a text behind `buff`: its length, then its bytes.
pub fn write_nbt_string(buff: &mut Vec<u8>, text: &Mutf8String, d: Dialect)
    ensures
        final(buff)@ == old(buff)@ + enc_text(text@, d),
{
    let bytes = text.as_bytes();
    if d.has_var_len() {
        let len = var_u64_to_bytes((bytes.len() as u64) % 0x1_0000_0000);
        push_all(buff, len.as_slice());
    } else {
        push_n16(buff, ((bytes.len() as u64) % 0x1_0000) as u16, d.is_little_endian());
    }
    push_all(buff, bytes);
    assert(buff@ =~= old(buff)@ + enc_text(text@, d));
}

/// Puts a count and signed bytes behind `buff`.
pub fn write_i8_array(buff: &mut Vec<u8>, data: &Vec<i8>, d: Dialect)
    ensures
        final(buff)@ == old(buff)@ + enc_count(data@.len(), d) + enc_i8s(data@),
{
    write_count(buff, data.len(), d);
    let ghost head = buff@;
    let mut i: usize = 0;
    assert(buff@ =~= head + enc_i8s(data@.take(0)));
    while i < data.len()
        invariant
            i <= data@.len(),
            buff@ == head + enc_i8s(data@.take(i as int)),
        decreases data@.len() - i,
    {
        buff.push(to_u8(data[i]));
        i += 1;
        assert(buff@ =~= head + enc_i8s(data@.take(i as int)));
    }
    assert(data@.take(i as int) =~= data@);
}

/// Puts a count and signed 32-bit numbers behind `buff`.
pub fn write_i32_array(buff: &mut Vec<u8>, data: &Vec<i32>, d: Dialect)
    ensures
        final(buff)@ == old(buff)@ + enc_count(data@.len(), d) + enc_i32s(
            data@,
            d.little_endian(),
        ),
{
    write_count(buff, data.len(), d);
    let little = d.is_little_endian();
    let ghost head = buff@;
    let mut i: usize = 0;
    assert(buff@ =~= head + enc_i32s(data@.take(0), little));
    while i < data.len()
        invariant
            i <= data@.len(),
            buff@ == head + enc_i32s(data@.take(i as int), little),
        decreases data@.len() - i,
    {
        push_n32(buff, to_u32(data[i]), little);
        i += 1;
        assert(buff@ =~= head + enc_i32s(data@.take(i as int), little));
    }
    assert(data@.take(i as int) =~= data@);
}

/// Puts a count and signed 64-bit numbers behind `buff`.
pub fn write_i64_array(buff: &mut Vec<u8>, data: &Vec<i64>, d: Dialect)
    ensures
        final(buff)@ == old(buff)@ + enc_count(data@.len(), d) + enc_i64s(
            data@,
            d.little_endian(),
        ),
{
    write_count(buff, data.len(), d);
    let little = d.is_little_endian();
    let ghost head = buff@;
    let mut i: usize = 0;
    assert(buff@ =~= head + enc_i64s(data@.take(0), little));
    while i < data.len()
        invariant
            i <= data@.len(),
            buff@ == head + enc_i64s(data@.take(i as int), little),
        decreases data@.len() - i,
    {
        push_n64(buff, to_u64(data[i]), little);
        i += 1;
        assert(buff@ =~= head + enc_i64s(data@.take(i as int), little));
    }
    assert(data@.take(i as int) =~= data@);
}

/// The tags of the items of a list.
fn list_tags(items: &Vec<NbtValue>) -> (r: Vec<u8>)
    ensures
        r@ == tags_of(value_trees(*items)),
{
    let mut tags: Vec<u8> = Vec::new();
    let mut i: usize = 0;
    while i < items.len()
        invariant
            i <= items.len(),
            tags@ == tags_of(value_trees(*items)).take(i as int),
        decreases items.len() - i,
    {
        tags.push(items[i].tag());
        i += 1;
        assert(tags@ =~= tags_of(value_trees(*items)).take(i as int));
    }
    assert(tags@ =~= tags_of(value_trees(*items)));
    tags
}

/// Whether the items of a list all have the tag of the first.
fn is_uniform(items: &Vec<NbtValue>) -> (r: bool)
    ensures
        r == uniform(value_trees(*items)),
{
    if items.len() == 0 {
        return true;
    }
    let first = items[0].tag();
    let mut i: usize = 1;
    while i < items.len()
        invariant
            1 <= i <= items.len(),
            first == tag_of(value_trees(*items)[0]),
            forall|k: int|
                0 <= k < i ==> tag_of(#[trigger] value_trees(*items)[k]) == tag_of(
                    value_trees(*items)[0],
                ),
        decreases items.len() - i,
    {
        if items[i].tag() != first {
            assert(tag_of(value_trees(*items)[i as int]) != tag_of(value_trees(*items)[0]));
            return false;
        }
        i += 1;
    }
    true
}

/// Whether `longer` is `shorter` with bytes behind it.
pub open spec fn extends(longer: Seq<u8>, shorter: Seq<u8>) -> bool {
    shorter.len() <= longer.len() && longer.subrange(0, shorter.len() as int) == shorter
}

/// Bytes with bytes behind them extend what they extend.
pub proof fn lemma_extends_more(longest: Seq<u8>, longer: Seq<u8>, shorter: Seq<u8>)
    requires
        extends(longest, longer),
        extends(longer, shorter),
    ensures
        extends(longest, shorter),
{
    assert(longest.subrange(0, shorter.len() as int) =~= shorter) by {
        assert forall|k: int| 0 <= k < shorter.len() implies longest.subrange(
            0,
            shorter.len() as int,
        )[k] == shorter[k] by {
            assert(longest.subrange(0, longer.len() as int)[k] == longer[k]);
            assert(longer.subrange(0, shorter.len() as int)[k] == shorter[k]);
        }
    }
}

/// Bytes put behind bytes extend them.
pub proof fn lemma_extends_append(shorter: Seq<u8>, more: Seq<u8>)
    ensures
        extends(shorter + more, shorter),
{
    assert((shorter + more).subrange(0, shorter.len() as int) =~= shorter);
}

/// Puts the payload of `value` behind `buff`, as the dialect `d` writes it.
/// A list whose items differ in tag cannot be written: the first such list
/// is reported with the tags of its items.
///
/// A length that does not fit the field for it is written as its low bits.
#[verifier::rlimit(20)]
pub fn write_payload(value: &NbtValue, buff: &mut Vec<u8>, d: Dialect) -> (r: Result<
    (),
    NbtError,
>)
    ensures
        extends(final(buff)@, old(buff)@),
        match r {
            Ok(_) => mixed_list(value@) is None && final(buff)@ == old(buff)@ + enc_payload(
                value@,
                d,
            ),
            Err(e) => e is ListTypeNotSame && mixed_list(value@) == Some(
                e->ListTypeNotSame_0@,
            ),
        },
    decreases value,
{
    let little = d.is_little_endian();
    proof {
        lemma_extends_append(old(buff)@, enc_payload(value@, d));
    }
    match value {
        NbtValue::Byte(v) => {
            buff.push(to_u8(*v));
            assert(buff@ =~= old(buff)@ + enc_payload(value@, d));
            Ok(())
        },
        NbtValue::Short(v) => {
            push_n16(buff, to_u16(*v), little);
            Ok(())
        },
        NbtValue::Int(v) => {
            push_n32(buff, to_u32(*v), little);
            Ok(())
        },
        NbtValue::Long(v) => {
            push_n64(buff, to_u64(*v), little);
            Ok(())
        },
        NbtValue::Float(v) => {
            push_n32(buff, *v, little);
            Ok(())
        },
        NbtValue::Double(v) => {
            push_n64(buff, *v, little);
            Ok(())
        },
        NbtValue::ByteArray(items) => {
            write_i8_array(buff, items, d);
            assert(buff@ =~= old(buff)@ + enc_payload(value@, d));
            Ok(())
        },
        NbtValue::String(text) => {
            write_nbt_string(buff, text, d);
            Ok(())
        },
        NbtValue::IntArray(items) => {
            write_i32_array(buff, items, d);
            assert(buff@ =~= old(buff)@ + enc_payload(value@, d));
            Ok(())
        },
        NbtValue::LongArray(items) => {
            write_i64_array(buff, items, d);
            assert(buff@ =~= old(buff)@ + enc_payload(value@, d));
            Ok(())
        },
        NbtValue::List(items) => {
            let ghost trees = value_trees(*items);
            if !is_uniform(items) {
                proof {
                    lemma_extends_append(old(buff)@, Seq::empty());
                    assert(old(buff)@ + Seq::<u8>::empty() =~= old(buff)@);
                }
                return Err(NbtError::ListTypeNotSame(list_tags(items)));
            }
            let tag = if items.len() == 0 {
                TAG_END
            } else {
                items[0].tag()
            };
            buff.push(tag);
            write_count(buff, items.len(), d);
            let ghost target = old(buff)@ + enc_payload(value@, d);
            assert(buff@ + enc_items(trees, 0, d) =~= target);
            proof {
                lemma_extends_append(
                    old(buff)@,
                    seq![list_tag(trees)] + enc_count(trees.len(), d),
                );
                assert(buff@ =~= old(buff)@ + (seq![list_tag(trees)] + enc_count(trees.len(), d)));
            }
            let mut i: usize = 0;
            while i < items.len()
                invariant
                    extends(buff@, old(buff)@),
                    i <= items.len(),
                    value is List,
                    value->List_0 == *items,
                    trees == value_trees(*items),
                    uniform(trees),
                    mixed_in_items(trees, i as nat) == mixed_in_items(trees, 0),
                    buff@ + enc_items(trees, i as nat, d) == target,
                decreases items.len() - i,
            {
                proof {
                    vstd::std_specs::vec::axiom_vec_index_decreases(*items, i as int);
                    assert(decreases_to!(*value => value->List_0));
                    assert(trees[i as int] == items[i as int]@);
                }
                let ghost before = buff@;
                let wrote = write_payload(&items[i], buff, d);
                proof {
                    lemma_extends_more(buff@, before, old(buff)@);
                }
                match wrote {
                    Ok(_) => {},
                    Err(e) => {
                        return Err(e);
                    },
                }
                assert(buff@ + enc_items(trees, (i + 1) as nat, d) =~= before + enc_items(
                    trees,
                    i as nat,
                    d,
                ));
                i += 1;
            }
            assert(buff@ =~= target);
            Ok(())
        },
        NbtValue::Compound(_, members) => {
            let ghost trees = named_trees(*members);
            let ghost target = old(buff)@ + enc_payload(value@, d);
            assert(buff@ + enc_members(trees, 0, d) + seq![TAG_END] =~= target);
            proof {
                lemma_extends_append(old(buff)@, Seq::empty());
                assert(old(buff)@ + Seq::<u8>::empty() =~= old(buff)@);
            }
            let mut i: usize = 0;
            while i < members.len()
                invariant
                    extends(buff@, old(buff)@),
                    i <= members.len(),
                    value is Compound,
                    value->Compound_1 == *members,
                    trees == named_trees(*members),
                    mixed_in_members(trees, i as nat) == mixed_in_members(trees, 0),
                    buff@ + enc_members(trees, i as nat, d) + seq![TAG_END] == target,
                decreases members.len() - i,
            {
                proof {
                    vstd::std_specs::vec::axiom_vec_index_decreases(*members, i as int);
                    assert(decreases_to!(*value => value->Compound_1));
                    assert(decreases_to!(members[i as int] => members[i as int].1));
                    assert(trees[i as int] == (members[i as int].0@, members[i as int].1@));
                }
                let ghost before = buff@;
                buff.push(members[i].1.tag());
                write_nbt_string(buff, &members[i].0, d);
                let ghost headed = buff@;
                proof {
                    assert(headed =~= before + (seq![tag_of(trees[i as int].1)] + enc_text(
                        trees[i as int].0,
                        d,
                    )));
                    lemma_extends_append(
                        before,
                        seq![tag_of(trees[i as int].1)] + enc_text(trees[i as int].0, d),
                    );
                    lemma_extends_more(headed, before, old(buff)@);
                }
                let wrote = write_payload(&members[i].1, buff, d);
                proof {
                    lemma_extends_more(buff@, headed, old(buff)@);
                }
                match wrote {
                    Ok(_) => {},
                    Err(e) => {
                        return Err(e);
                    },
                }
                assert(buff@ + enc_members(trees, (i + 1) as nat, d) + seq![TAG_END] =~= before
                    + enc_members(trees, i as nat, d) + seq![TAG_END]);
                i += 1;
            }
            buff.push(TAG_END);
            assert(buff@ =~= target);
            Ok(())
        },
    }
}

/// Why a tree cannot be written, if it cannot: the tag of a root that the
/// dialect does not accept, or the tags of the first list whose items
/// differ in tag.
pub enum Unwritable {
    /// The root is none that the dialect accepts; its tag.
    Root(u8),
    /// The tags of the items of a list that differ.
    List(Seq<u8>),
}

/// Whether the dialect `d` accepts `tree` as a root: a compound, or, where
/// the dialect has it so, a list.
pub open spec fn writable_root(tree: ValueTree, d: Dialect) -> bool {
    tree is Compound || (tree is List && d.root_list())
}

/// Why `tree` cannot be written in the dialect `d`, if it cannot.
pub open spec fn unwritable(tree: ValueTree, d: Dialect) -> Option<Unwritable> {
    if !writable_root(tree, d) {
        Some(Unwritable::Root(tag_of(tree)))
    } else {
        match mixed_list(tree) {
            Some(tags) => Some(Unwritable::List(tags)),
            None => None,
        }
    }
}

impl NbtValue {
    /// Puts the tree behind `buff` as the dialect `d` writes it. A root
    /// compound without a name is written with an empty one where the
    /// dialect gives the root a name.
    ///
    /// A length that does not fit the field for it is written as its low
    /// bits.
    pub fn write_to_with(&self, buff: &mut Vec<u8>, d: Dialect) -> (r: Result<(), NbtError>)
        ensures
            match r {
                Ok(_) => unwritable(self@, d) is None && final(buff)@ == old(buff)@ + enc_root(
                    self@,
                    d,
                ),
                Err(e) => match unwritable(self@, d) {
                    Some(Unwritable::Root(tag)) => e == NbtError::WrongRootType(tag) && final(buff)@
                        == old(buff)@,
                    Some(Unwritable::List(tags)) => e is ListTypeNotSame
                        && e->ListTypeNotSame_0@ == tags && extends(final(buff)@, old(buff)@),
                    None => false,
                },
            },
    {
        match self {
            NbtValue::Compound(name, _) => {
                buff.push(TAG_COMPOUND);
                if d.has_root_name() {
                    match name {
                        Some(text) => {
                            write_nbt_string(buff, text, d);
                        },
                        None => {
                            let empty = Mutf8String::from_bytes(Vec::new());
                            write_nbt_string(buff, &empty, d);
                        },
                    }
                }
            },
            NbtValue::List(_) => {
                if !d.allows_root_list() {
                    return Err(NbtError::WrongRootType(TAG_LIST));
                }
                buff.push(TAG_LIST);
            },
            _ => {
                return Err(NbtError::WrongRootType(self.tag()));
            },
        }
        let ghost head = buff@;
        proof {
            let written = match self@ {
                ValueTree::Compound(own, _) => seq![TAG_COMPOUND] + (if d.root_named() {
                    enc_text(root_name(own), d)
                } else {
                    Seq::empty()
                }),
                _ => seq![TAG_LIST],
            };
            assert(head =~= old(buff)@ + written);
            lemma_extends_append(old(buff)@, written);
        }
        let wrote = write_payload(self, buff, d);
        proof {
            lemma_extends_more(buff@, head, old(buff)@);
        }
        match wrote {
            Ok(_) => {
                assert(buff@ =~= old(buff)@ + enc_root(self@, d));
                Ok(())
            },
            Err(e) => Err(e),
        }
    }

    /// The tree as the dialect `d` writes it.
    pub fn to_binary_with(&self, d: Dialect) -> (r: Result<Vec<u8>, NbtError>)
        ensures
            match r {
                Ok(bytes) => unwritable(self@, d) is None && bytes@ == enc_root(self@, d),
                Err(e) => match unwritable(self@, d) {
                    Some(Unwritable::Root(tag)) => e == NbtError::WrongRootType(tag),
                    Some(Unwritable::List(tags)) => e is ListTypeNotSame
                        && e->ListTypeNotSame_0@ == tags,
                    None => false,
                },
            },
    {
        let mut buff: Vec<u8> = Vec::new();
        match self.write_to_with(&mut buff, d) {
            Ok(_) => {
                assert(buff@ =~= enc_root(self@, d));
                Ok(buff)
            },
            Err(e) => Err(e),
        }
    }
}

/// The groups of a variable-length integer are the first group and 128
/// times those behind it.
pub proof fn lemma_var_groups_first(data: Seq<u8>, at: int, n: nat)
    ensures
        var_groups(data, at, n + 1) == data[at] as int % 128 + 128 * var_groups(data, at + 1, n),
    decreases n,
{
    reveal_with_fuel(group_weight, 2);
    if n == 0 {
        assert(var_groups(data, at, 1) == var_groups(data, at, 0) + (data[at + 1 - 1] as int % 128)
            * group_weight(0));
        assert(var_groups(data, at + 1, 0) == 0);
    } else {
        lemma_var_groups_first(data, at, (n - 1) as nat);
        let last = data[at + n] as int % 128;
        let weight = group_weight((n - 1) as nat);
        assert(var_groups(data, at, n + 1) == var_groups(data, at, n) + last * group_weight(n));
        assert(var_groups(data, at + 1, n) == var_groups(data, at + 1, (n - 1) as nat) + last
            * weight);
        assert(group_weight(n) == 128 * weight);
        assert(last * (128 * weight) == 128 * (last * weight)) by (nonlinear_arith);
        assert(128 * (var_groups(data, at + 1, (n - 1) as nat) + last * weight) == 128
            * var_groups(data, at + 1, (n - 1) as nat) + 128 * (last * weight))
            by (nonlinear_arith);
    }
}

/// The bytes of a variable-length integer, where they stand in a buffer,
/// are read as the number: the reader stops behind them, and their groups
/// spell the number.
pub proof fn lemma_var_bytes_read(data: Seq<u8>, at: int, v: nat, cap: nat)
    requires
        0 <= at,
        at + var_bytes(v).len() <= data.len(),
        data.subrange(at, at + var_bytes(v).len()) == var_bytes(v),
        1 <= cap,
        v < group_weight(cap),
    ensures
        var_span(data, at, cap) == var_bytes(v).len(),
        var_ended(data, at, var_bytes(v).len()),
        var_groups(data, at, var_bytes(v).len()) == v,
    decreases v,
{
    let bytes = var_bytes(v);
    assert(data[at] == bytes[0]) by {
        assert(data.subrange(at, at + bytes.len())[0] == bytes[0]);
    }
    reveal_with_fuel(group_weight, 2);
    if v < 128 {
        assert(var_groups(data, at, 1) == var_groups(data, at, 0) + (data[at + 1 - 1] as int % 128)
            * group_weight(0));
    } else {
        let rest = var_bytes(v / 128);
        assert(bytes =~= seq![(v % 128 + 128) as u8] + rest);
        assert(data.subrange(at + 1, at + 1 + rest.len()) =~= rest) by {
            assert forall|k: int| 0 <= k < rest.len() implies data.subrange(
                at + 1,
                at + 1 + rest.len(),
            )[k] == rest[k] by {
                assert(data.subrange(at, at + bytes.len())[k + 1] == bytes[k + 1]);
            }
        }
        assert(cap >= 2) by {
            if cap == 1 {
                assert(group_weight(1) == 128);
            }
        }
        assert(v / 128 < group_weight((cap - 1) as nat)) by {
            assert(group_weight(cap) == 128 * group_weight((cap - 1) as nat));
        }
        lemma_var_bytes_read(data, at + 1, v / 128, (cap - 1) as nat);
        lemma_var_groups_first(data, at, rest.len());
        assert(data[at] as int % 128 == v % 128);
    }
}

/// A 32-bit number that was written as a variable-length integer is read
/// back, whatever follows it.
pub proof fn lemma_var_i32_round(data: Seq<u8>, at: int, value: i32)
    requires
        0 <= at,
        at + var_bytes(pattern32(value as int)).len() <= data.len(),
        data.subrange(at, at + var_bytes(pattern32(value as int)).len()) == var_bytes(
            pattern32(value as int),
        ),
    ensures
        var_i32_at(data, at) == Ok::<(i32, int), NbtError>(
            (value, at + var_bytes(pattern32(value as int)).len()),
        ),
{
    lemma_group_weights();
    lemma_var_bytes_read(data, at, pattern32(value as int), 5);
}

/// A 64-bit number that was written as a variable-length integer is read
/// back, whatever follows it.
pub proof fn lemma_var_i64_round(data: Seq<u8>, at: int, value: i64)
    requires
        0 <= at,
        at + var_bytes(pattern64(value as int)).len() <= data.len(),
        data.subrange(at, at + var_bytes(pattern64(value as int)).len()) == var_bytes(
            pattern64(value as int),
        ),
    ensures
        var_i64_at(data, at) == Ok::<(i64, int), NbtError>(
            (value, at + var_bytes(pattern64(value as int)).len()),
        ),
{
    lemma_group_weights();
    lemma_var_bytes_read(data, at, pattern64(value as int), 10);
}

/// A number that was written zig-zag is read back zig-zag, whatever follows
/// it, where its code keeps the sign bit of the 32 bits clear: the reader
/// halves the signed number that it read.
pub proof fn lemma_zigzag_i32_round(data: Seq<u8>, at: int, value: i32)
    requires
        -0x4000_0000 <= value < 0x4000_0000,
        0 <= at,
        at + var_bytes(zigzag_code(value as int)).len() <= data.len(),
        data.subrange(at, at + var_bytes(zigzag_code(value as int)).len()) == var_bytes(
            zigzag_code(value as int),
        ),
    ensures
        match var_i32_at(data, at) {
            Ok((raw, next)) => zigzag(raw as int) == value && next == at + var_bytes(
                zigzag_code(value as int),
            ).len(),
            Err(_) => false,
        },
{
    lemma_group_weights();
    lemma_var_bytes_read(data, at, zigzag_code(value as int), 5);
}

} // verus!
