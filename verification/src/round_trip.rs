//! Writing a tree and reading the bytes gives the tree back, in each of the
//! four dialects.

use vstd::prelude::*;
use crate::borrow::bounds::name_at;
use crate::borrow::layout::{
    advanced, array_at, count_at, elements_at, lemma_payload_advances, list_head_at,
    member_head_at, members_at, open_at, payload_at, root_at, scalar_at, skip_at, string_at,
    text_len_at,
};
use crate::borrow::own::owned;
use crate::borrow::BorrowTree;
use crate::error::NbtError;
use crate::nbt_consts::{TAG_COMPOUND, TAG_END, TAG_LIST};
use crate::nbt_version::Dialect;
use crate::value::{tag_of, ValueTree};
use crate::wire::{
    be_u16, be_u32, be_u64, i32s_at, i64s_at, i8s_at, le_u16, le_u32, le_u64,
    lemma_group_weights, signed32, u16_at, u32_at, u64_at, var_i32_at, zigzag,
};
use crate::writer::{
    be16, be32, be64, enc_count, enc_i32s, enc_i64s, enc_i8s, enc_items, enc_members,
    enc_payload, enc_root, enc_text, enc_text_len, le16, le32, le64, lemma_var_bytes_read,
    list_tag, n16, n32, n64, pattern16, pattern32, pattern64, root_name, uniform, var_bytes,
    zigzag_code,
};
use crate::RECURSE_LIMIT;

verus! {

/// Whether the bytes `part` stand in `data` at `at`.
pub open spec fn holds(data: Seq<u8>, at: int, part: Seq<u8>) -> bool {
    &&& 0 <= at
    &&& at + part.len() <= data.len()
    &&& data.subrange(at, at + part.len()) == part
}

/// Where two parts stand one behind the other, each of them stands.
pub proof fn lemma_holds_split(data: Seq<u8>, at: int, first: Seq<u8>, second: Seq<u8>)
    requires
        holds(data, at, first + second),
    ensures
        holds(data, at, first),
        holds(data, at + first.len(), second),
{
    let whole = first + second;
    assert(data.subrange(at, at + first.len()) =~= first) by {
        assert forall|k: int| 0 <= k < first.len() implies data.subrange(
            at,
            at + first.len(),
        )[k] == first[k] by {
            assert(data.subrange(at, at + whole.len())[k] == whole[k]);
        }
    }
    assert(data.subrange(at + first.len(), at + first.len() + second.len()) =~= second) by {
        assert forall|k: int| 0 <= k < second.len() implies data.subrange(
            at + first.len(),
            at + first.len() + second.len(),
        )[k] == second[k] by {
            assert(data.subrange(at, at + whole.len())[first.len() + k] == whole[first.len() + k]);
        }
    }
}

/// A byte of a part that stands in the buffer is the buffer's byte there.
pub proof fn lemma_holds_byte(data: Seq<u8>, at: int, part: Seq<u8>, k: int)
    requires
        holds(data, at, part),
        0 <= k < part.len(),
    ensures
        data[at + k] == part[k],
{
    assert(data.subrange(at, at + part.len())[k] == part[k]);
}

/// A buffer holds itself.
pub proof fn lemma_holds_all(data: Seq<u8>)
    ensures
        holds(data, 0, data),
{
    assert(data.subrange(0, data.len() as int) =~= data);
}

/// Two bytes that were written the high one first are read as the number.
pub proof fn lemma_be16_read(data: Seq<u8>, at: int, v: int)
    requires
        holds(data, at, be16(v)),
        0 <= v < 0x1_0000,
    ensures
        be_u16(data, at) == v,
{
    lemma_holds_byte(data, at, be16(v), 0);
    lemma_holds_byte(data, at, be16(v), 1);
}

/// Four bytes that were written the highest first are read as the number.
pub proof fn lemma_be32_read(data: Seq<u8>, at: int, v: int)
    requires
        holds(data, at, be32(v)),
        0 <= v < 0x1_0000_0000,
    ensures
        be_u32(data, at) == v,
{
    lemma_holds_split(data, at, be16(v / 0x1_0000), be16(v % 0x1_0000));
    lemma_be16_read(data, at, v / 0x1_0000);
    lemma_be16_read(data, at + 2, v % 0x1_0000);
}

/// Eight bytes that were written the highest first are read as the number.
pub proof fn lemma_be64_read(data: Seq<u8>, at: int, v: int)
    requires
        holds(data, at, be64(v)),
        0 <= v < 0x1_0000_0000_0000_0000,
    ensures
        be_u64(data, at) == v,
{
    lemma_holds_split(data, at, be32(v / 0x1_0000_0000), be32(v % 0x1_0000_0000));
    lemma_be32_read(data, at, v / 0x1_0000_0000);
    lemma_be32_read(data, at + 4, v % 0x1_0000_0000);
}

/// Two bytes that were written the low one first are read as the number.
pub proof fn lemma_le16_read(data: Seq<u8>, at: int, v: int)
    requires
        holds(data, at, le16(v)),
        0 <= v < 0x1_0000,
    ensures
        le_u16(data, at) == v,
{
    lemma_holds_byte(data, at, le16(v), 0);
    lemma_holds_byte(data, at, le16(v), 1);
}

/// Four bytes that were written the lowest first are read as the number.
pub proof fn lemma_le32_read(data: Seq<u8>, at: int, v: int)
    requires
        holds(data, at, le32(v)),
        0 <= v < 0x1_0000_0000,
    ensures
        le_u32(data, at) == v,
{
    lemma_holds_split(data, at, le16(v % 0x1_0000), le16(v / 0x1_0000));
    lemma_le16_read(data, at, v % 0x1_0000);
    lemma_le16_read(data, at + 2, v / 0x1_0000);
}

/// Eight bytes that were written the lowest first are read as the number.
pub proof fn lemma_le64_read(data: Seq<u8>, at: int, v: int)
    requires
        holds(data, at, le64(v)),
        0 <= v < 0x1_0000_0000_0000_0000,
    ensures
        le_u64(data, at) == v,
{
    lemma_holds_split(data, at, le32(v % 0x1_0000_0000), le32(v / 0x1_0000_0000));
    lemma_le32_read(data, at, v % 0x1_0000_0000);
    lemma_le32_read(data, at + 4, v / 0x1_0000_0000);
}

/// A 16-bit number that was written in a byte order is read in that order
/// as it is.
pub proof fn lemma_n16_read(data: Seq<u8>, at: int, v: int, little: bool)
    requires
        holds(data, at, n16(v, little)),
        0 <= v < 0x1_0000,
    ensures
        u16_at(data, at, little) == v,
        n16(v, little).len() == 2,
{
    if little {
        lemma_le16_read(data, at, v);
    } else {
        lemma_be16_read(data, at, v);
    }
}

/// A 32-bit number that was written in a byte order is read in that order
/// as it is.
pub proof fn lemma_n32_read(data: Seq<u8>, at: int, v: int, little: bool)
    requires
        holds(data, at, n32(v, little)),
        0 <= v < 0x1_0000_0000,
    ensures
        u32_at(data, at, little) == v,
        n32(v, little).len() == 4,
{
    if little {
        lemma_le32_read(data, at, v);
    } else {
        lemma_be32_read(data, at, v);
    }
}

/// A 64-bit number that was written in a byte order is read in that order
/// as it is.
pub proof fn lemma_n64_read(data: Seq<u8>, at: int, v: int, little: bool)
    requires
        holds(data, at, n64(v, little)),
        0 <= v < 0x1_0000_0000_0000_0000,
    ensures
        u64_at(data, at, little) == v,
        n64(v, little).len() == 8,
{
    if little {
        lemma_le64_read(data, at, v);
    } else {
        lemma_be64_read(data, at, v);
    }
}

/// Whether a count is read back as it was written: it fits 31 bits, and 30
/// where it is written zig-zag, of which the reader halves the signed code.
pub open spec fn count_fits(n: nat, d: Dialect) -> bool {
    if d.var_len() {
        n < 0x4000_0000
    } else {
        n <= i32::MAX
    }
}

/// Whether the length of a text is read back as it was written: it fits 16
/// bits, or 31 where it is a variable-length integer.
pub open spec fn text_fits(len: nat, d: Dialect) -> bool {
    if d.var_len() {
        len <= i32::MAX
    } else {
        len <= 0xFFFF
    }
}

/// A number below 2^31 that was written as a variable-length integer is
/// read as it is.
pub proof fn lemma_var_read(data: Seq<u8>, at: int, v: nat)
    requires
        holds(data, at, var_bytes(v)),
        v <= i32::MAX,
    ensures
        var_i32_at(data, at) == Ok::<(i32, int), NbtError>((v as i32, at + var_bytes(v).len())),
{
    lemma_group_weights();
    lemma_var_bytes_read(data, at, v, 5);
}

/// A count that was written is read as it is, where it fits.
pub proof fn lemma_count_read(data: Seq<u8>, d: Dialect, at: int, n: nat, tag: u8)
    requires
        holds(data, at, enc_count(n, d)),
        count_fits(n, d),
    ensures
        count_at(data, d, at, tag) == Ok::<(usize, int), NbtError>(
            (n as usize, at + enc_count(n, d).len()),
        ),
{
    assert(n as int % 0x1_0000_0000 == n);
    assert(signed32(n as int) == n);
    if d.var_len() {
        assert(zigzag_code(n as int) == 2 * n);
        lemma_var_read(data, at, 2 * n);
        assert(zigzag(2 * n as int) == n);
    } else {
        lemma_n32_read(data, at, n as int, d.little_endian());
    }
}

/// A text that was written is read as it is, where its length fits.
pub proof fn lemma_text_read(data: Seq<u8>, d: Dialect, at: int, text: Seq<u8>)
    requires
        holds(data, at, enc_text(text, d)),
        text_fits(text.len(), d),
    ensures
        text_len_at(data, d, at) == Ok::<(usize, int), NbtError>(
            (text.len() as usize, at + enc_text_len(text.len(), d).len()),
        ),
        skip_at(data, at + enc_text_len(text.len(), d).len(), text.len() as int) == Ok::<
            int,
            NbtError,
        >(at + enc_text(text, d).len()),
        data.subrange(
            at + enc_text_len(text.len(), d).len(),
            at + enc_text_len(text.len(), d).len() + text.len(),
        ) == text,
        enc_text(text, d).len() == enc_text_len(text.len(), d).len() + text.len(),
        enc_text_len(text.len(), d).len() >= 1,
{
    lemma_holds_split(data, at, enc_text_len(text.len(), d), text);
    if d.var_len() {
        assert(text.len() as int % 0x1_0000_0000 == text.len());
        lemma_var_read(data, at, text.len());
    } else {
        assert(text.len() as int % 0x1_0000 == text.len());
        lemma_n16_read(data, at, text.len() as int, d.little_endian());
    }
}

/// Whether a value below the root can be written and read back in the
/// dialect `d` with `room` lists and compounds open at once: every length
/// fits the field for it, the items of a list have one tag, and a compound
/// has no name but that which it has as a member.
pub open spec fn fits_format(tree: ValueTree, room: nat, d: Dialect) -> bool
    decreases tree,
{
    match tree {
        ValueTree::ByteArray(items) => count_fits(items.len(), d),
        ValueTree::IntArray(items) => count_fits(items.len(), d),
        ValueTree::LongArray(items) => count_fits(items.len(), d),
        ValueTree::String(bytes) => text_fits(bytes.len(), d),
        ValueTree::List(items) => {
            &&& count_fits(items.len(), d)
            &&& uniform(items)
            &&& items.len() > 0 ==> room >= 1
            &&& forall|i: int|
                0 <= i < items.len() ==> fits_format(#[trigger] items[i], (room - 1) as nat, d)
        },
        ValueTree::Compound(name, members) => {
            &&& name is None
            &&& room >= 1
            &&& members_fit(members, (room - 1) as nat, d)
        },
        _ => true,
    }
}

/// Whether the members of a compound can be written and read back: each
/// name fits the field for its length, and each value fits.
pub open spec fn members_fit(members: Seq<(Seq<u8>, ValueTree)>, room: nat, d: Dialect) -> bool
    decreases members,
{
    forall|i: int|
        0 <= i < members.len() ==> text_fits((#[trigger] members[i]).0.len(), d) && fits_format(
            members[i].1,
            room,
            d,
        )
}

/// Whether a tree can be written and read back in the dialect `d`: it is a
/// compound with a name where the dialect gives the root one, and without
/// where it does not, or it is a list where the dialect has lists as roots;
/// and what is in it fits.
pub open spec fn root_fits(tree: ValueTree, d: Dialect) -> bool {
    match tree {
        ValueTree::Compound(name, members) => (match name {
            Some(bytes) => d.root_named() && text_fits(bytes.len(), d),
            None => !d.root_named(),
        }) && members_fit(members, (RECURSE_LIMIT - 1) as nat, d),
        ValueTree::List(_) => d.root_list() && fits_format(tree, RECURSE_LIMIT as nat, d),
        _ => false,
    }
}

/// What is claimed of bytes that were written: they are read in full, up
/// to `end`, and what was read decodes to the value.
pub open spec fn reads_back(
    data: Seq<u8>,
    d: Dialect,
    read: Result<(BorrowTree, int), NbtError>,
    end: int,
    tree: ValueTree,
) -> bool {
    match read {
        Ok((node, behind)) => behind == end && owned(data, d, node) == tree,
        Err(_) => false,
    }
}

/// A number that was written is read back.
#[verifier::rlimit(20)]
pub proof fn lemma_scalar_round(data: Seq<u8>, d: Dialect, at: int, tree: ValueTree)
    requires
        holds(data, at, enc_payload(tree, d)),
        1 <= tag_of(tree) <= 6,
        data.len() <= usize::MAX,
    ensures
        reads_back(
            data,
            d,
            scalar_at(data, tag_of(tree), at),
            at + enc_payload(tree, d).len(),
            tree,
        ),
{
    let little = d.little_endian();
    match tree {
        ValueTree::Byte(v) => {
            lemma_holds_byte(data, at, enc_payload(tree, d), 0);
        },
        ValueTree::Short(v) => {
            lemma_n16_read(data, at, pattern16(v as int), little);
        },
        ValueTree::Int(v) => {
            lemma_n32_read(data, at, pattern32(v as int) as int, little);
        },
        ValueTree::Long(v) => {
            lemma_n64_read(data, at, pattern64(v as int) as int, little);
        },
        ValueTree::Float(v) => {
            lemma_n32_read(data, at, v as int, little);
        },
        ValueTree::Double(v) => {
            lemma_n64_read(data, at, v as int, little);
        },
        _ => {},
    }
}

/// Signed bytes that were written are read back.
pub proof fn lemma_i8s_round(data: Seq<u8>, at: int, items: Seq<i8>)
    requires
        holds(data, at, enc_i8s(items)),
    ensures
        i8s_at(data, at, items.len()) == items,
{
    assert forall|i: int| 0 <= i < items.len() implies i8s_at(data, at, items.len())[i]
        == items[i] by {
        lemma_holds_byte(data, at, enc_i8s(items), i);
    }
    assert(i8s_at(data, at, items.len()) =~= items);
}

/// Signed 32-bit numbers that were written are read back.
pub proof fn lemma_i32s_round(data: Seq<u8>, at: int, items: Seq<i32>, little: bool)
    requires
        holds(data, at, enc_i32s(items, little)),
    ensures
        i32s_at(data, at, items.len(), little) == items,
{
    assert forall|i: int| 0 <= i < items.len() implies i32s_at(data, at, items.len(), little)[i]
        == items[i] by {
        let word = n32(pattern32(items[i] as int) as int, little);
        assert(word.len() == 4);
        assert(holds(data, at + 4 * i, word)) by {
            assert(data.subrange(at + 4 * i, at + 4 * i + 4) =~= word) by {
                assert forall|j: int| 0 <= j < 4 implies data.subrange(
                    at + 4 * i,
                    at + 4 * i + 4,
                )[j] == word[j] by {
                    lemma_holds_byte(data, at, enc_i32s(items, little), 4 * i + j);
                    assert((4 * i + j) / 4 == i);
                    assert((4 * i + j) % 4 == j);
                }
            }
        }
        lemma_n32_read(data, at + 4 * i, pattern32(items[i] as int) as int, little);
    }
    assert(i32s_at(data, at, items.len(), little) =~= items);
}

/// Signed 64-bit numbers that were written are read back.
pub proof fn lemma_i64s_round(data: Seq<u8>, at: int, items: Seq<i64>, little: bool)
    requires
        holds(data, at, enc_i64s(items, little)),
    ensures
        i64s_at(data, at, items.len(), little) == items,
{
    assert forall|i: int| 0 <= i < items.len() implies i64s_at(data, at, items.len(), little)[i]
        == items[i] by {
        let word = n64(pattern64(items[i] as int) as int, little);
        assert(word.len() == 8);
        assert(holds(data, at + 8 * i, word)) by {
            assert(data.subrange(at + 8 * i, at + 8 * i + 8) =~= word) by {
                assert forall|j: int| 0 <= j < 8 implies data.subrange(
                    at + 8 * i,
                    at + 8 * i + 8,
                )[j] == word[j] by {
                    lemma_holds_byte(data, at, enc_i64s(items, little), 8 * i + j);
                    assert((8 * i + j) / 8 == i);
                    assert((8 * i + j) % 8 == j);
                }
            }
        }
        lemma_n64_read(data, at + 8 * i, pattern64(items[i] as int) as int, little);
    }
    assert(i64s_at(data, at, items.len(), little) =~= items);
}

/// An array of bytes that was written is read back.
pub proof fn lemma_byte_array_round(data: Seq<u8>, d: Dialect, at: int, items: Seq<i8>)
    requires
        holds(data, at, enc_count(items.len(), d) + enc_i8s(items)),
        count_fits(items.len(), d),
        data.len() <= usize::MAX,
    ensures
        reads_back(
            data,
            d,
            array_at(data, d, 7, at),
            at + enc_count(items.len(), d).len() + items.len(),
            ValueTree::ByteArray(items),
        ),
{
    let start = at + enc_count(items.len(), d).len();
    lemma_holds_split(data, at, enc_count(items.len(), d), enc_i8s(items));
    lemma_count_read(data, d, at, items.len(), 7);
    lemma_i8s_round(data, start, items);
    assert(skip_at(data, start, items.len() as int * 1) == Ok::<int, NbtError>(
        start + items.len(),
    ));
}

/// An array of 32-bit numbers that was written is read back.
pub proof fn lemma_int_array_round(data: Seq<u8>, d: Dialect, at: int, items: Seq<i32>)
    requires
        holds(data, at, enc_count(items.len(), d) + enc_i32s(items, d.little_endian())),
        count_fits(items.len(), d),
        data.len() <= usize::MAX,
    ensures
        reads_back(
            data,
            d,
            array_at(data, d, 11, at),
            at + enc_count(items.len(), d).len() + 4 * items.len(),
            ValueTree::IntArray(items),
        ),
{
    let start = at + enc_count(items.len(), d).len();
    lemma_holds_split(data, at, enc_count(items.len(), d), enc_i32s(items, d.little_endian()));
    lemma_count_read(data, d, at, items.len(), 11);
    lemma_i32s_round(data, start, items, d.little_endian());
    assert(skip_at(data, start, items.len() as int * 4) == Ok::<int, NbtError>(
        start + 4 * items.len(),
    ));
}

/// An array of 64-bit numbers that was written is read back.
pub proof fn lemma_long_array_round(data: Seq<u8>, d: Dialect, at: int, items: Seq<i64>)
    requires
        holds(data, at, enc_count(items.len(), d) + enc_i64s(items, d.little_endian())),
        count_fits(items.len(), d),
        data.len() <= usize::MAX,
    ensures
        reads_back(
            data,
            d,
            array_at(data, d, 12, at),
            at + enc_count(items.len(), d).len() + 8 * items.len(),
            ValueTree::LongArray(items),
        ),
{
    let start = at + enc_count(items.len(), d).len();
    lemma_holds_split(data, at, enc_count(items.len(), d), enc_i64s(items, d.little_endian()));
    lemma_count_read(data, d, at, items.len(), 12);
    lemma_i64s_round(data, start, items, d.little_endian());
    assert(skip_at(data, start, items.len() as int * 8) == Ok::<int, NbtError>(
        start + 8 * items.len(),
    ));
}

/// An array that was written is read back.
pub proof fn lemma_array_round(data: Seq<u8>, d: Dialect, at: int, tree: ValueTree)
    requires
        holds(data, at, enc_payload(tree, d)),
        tree is ByteArray || tree is IntArray || tree is LongArray,
        fits_format(tree, 0, d),
        data.len() <= usize::MAX,
    ensures
        reads_back(
            data,
            d,
            array_at(data, d, tag_of(tree), at),
            at + enc_payload(tree, d).len(),
            tree,
        ),
{
    match tree {
        ValueTree::ByteArray(items) => {
            lemma_byte_array_round(data, d, at, items);
        },
        ValueTree::IntArray(items) => {
            lemma_int_array_round(data, d, at, items);
        },
        ValueTree::LongArray(items) => {
            lemma_long_array_round(data, d, at, items);
        },
        _ => {},
    }
}

/// A string that was written is read back.
pub proof fn lemma_string_round(data: Seq<u8>, d: Dialect, at: int, tree: ValueTree)
    requires
        holds(data, at, enc_payload(tree, d)),
        tree is String,
        fits_format(tree, 0, d),
        data.len() <= usize::MAX,
    ensures
        reads_back(
            data,
            d,
            string_at(data, d, at),
            at + enc_payload(tree, d).len(),
            tree,
        ),
{
    lemma_text_read(data, d, at, tree->String_0);
}

/// Whether the nodes `read` decode to the items of a list, one for one.
pub open spec fn items_read_back(
    data: Seq<u8>,
    d: Dialect,
    read: Seq<BorrowTree>,
    items: Seq<ValueTree>,
    n: int,
) -> bool {
    forall|i: int| 0 <= i < n ==> owned(data, d, #[trigger] read[i]) == items[i]
}

/// Whether the members `read` decode to the members of a compound, one for
/// one, each under its name.
pub open spec fn members_read_back(
    data: Seq<u8>,
    d: Dialect,
    read: Seq<(usize, usize, BorrowTree)>,
    members: Seq<(Seq<u8>, ValueTree)>,
    n: int,
) -> bool {
    forall|i: int|
        0 <= i < n ==> data.subrange(
            (#[trigger] read[i]).0 as int,
            read[i].0 + read[i].1,
        ) == members[i].0 && owned(data, d, read[i].2) == members[i].1
}

/// What is claimed of the items of a list that were written at `at`: they
/// are read in full, and decode to the items.
pub open spec fn items_round(
    data: Seq<u8>,
    d: Dialect,
    items: Seq<ValueTree>,
    at: int,
    depth: nat,
) -> bool {
    match elements_at(data, d, list_tag(items), at, items.len(), Seq::empty(), depth) {
        Ok((read, end)) => end == at + enc_items(items, 0, d).len() && read.len() == items.len()
            && items_read_back(data, d, read, items, items.len() as int),
        Err(_) => false,
    }
}

/// What is claimed of the members of a compound that were written at `at`
/// with the end of the compound behind them: they are read in full, and
/// decode to the members.
pub open spec fn members_round(
    data: Seq<u8>,
    d: Dialect,
    members: Seq<(Seq<u8>, ValueTree)>,
    at: int,
    depth: nat,
) -> bool {
    match members_at(data, d, at, Seq::empty(), depth) {
        Ok((read, end)) => end == at + enc_members(members, 0, d).len() + 1 && read.len()
            == members.len() && members_read_back(data, d, read, members, members.len() as int),
        Err(_) => false,
    }
}

/// The head of a list that was written is read as it is.
pub proof fn lemma_list_head_read(data: Seq<u8>, d: Dialect, at: int, items: Seq<ValueTree>)
    requires
        holds(data, at, seq![list_tag(items)] + enc_count(items.len(), d)),
        count_fits(items.len(), d),
        data.len() <= usize::MAX,
    ensures
        list_head_at(data, d, at) == Ok::<(BorrowTree, bool, int), NbtError>(
            (
                BorrowTree::List(
                    (at + 1) as usize,
                    items.len() as usize,
                    list_tag(items),
                    Seq::empty(),
                ),
                items.len() > 0,
                at + 1 + enc_count(items.len(), d).len(),
            ),
        ),
{
    lemma_holds_split(data, at, seq![list_tag(items)], enc_count(items.len(), d));
    lemma_holds_byte(data, at, seq![list_tag(items)], 0);
    lemma_count_read(data, d, at + 1, items.len(), list_tag(items));
}

/// A list whose items are read back is read back.
pub proof fn lemma_list_round(data: Seq<u8>, d: Dialect, at: int, items: Seq<ValueTree>, depth: nat)
    requires
        holds(data, at, enc_payload(ValueTree::List(items), d)),
        count_fits(items.len(), d),
        data.len() <= usize::MAX,
        items.len() > 0 ==> items_round(
            data,
            d,
            items,
            at + 1 + enc_count(items.len(), d).len(),
            depth + 1,
        ),
    ensures
        reads_back(
            data,
            d,
            payload_at(data, d, 9, at, depth),
            at + enc_payload(ValueTree::List(items), d).len(),
            ValueTree::List(items),
        ),
{
    let tree = ValueTree::List(items);
    let head = seq![list_tag(items)] + enc_count(items.len(), d);
    let start = at + 1 + enc_count(items.len(), d).len();
    assert(enc_payload(tree, d) =~= head + enc_items(items, 0, d));
    lemma_holds_split(data, at, head, enc_items(items, 0, d));
    lemma_list_head_read(data, d, at, items);
    let node = BorrowTree::List(
        (at + 1) as usize,
        items.len() as usize,
        list_tag(items),
        Seq::empty(),
    );
    assert(open_at(data, d, 9, at) == list_head_at(data, d, at));
    if items.len() == 0 {
        assert(owned(data, d, node)->List_0 =~= items);
    } else {
        let read = elements_at(
            data,
            d,
            list_tag(items),
            start,
            items.len(),
            Seq::empty(),
            depth + 1,
        )->Ok_0.0;
        let full = BorrowTree::List((at + 1) as usize, items.len() as usize, list_tag(items), read);
        assert(owned(data, d, full)->List_0 =~= items);
    }
}

/// A compound whose members are read back is read back.
pub proof fn lemma_compound_round(
    data: Seq<u8>,
    d: Dialect,
    at: int,
    members: Seq<(Seq<u8>, ValueTree)>,
    depth: nat,
)
    requires
        holds(data, at, enc_payload(ValueTree::Compound(None, members), d)),
        data.len() <= usize::MAX,
        members_round(data, d, members, at, depth + 1),
    ensures
        reads_back(
            data,
            d,
            payload_at(data, d, 10, at, depth),
            at + enc_payload(ValueTree::Compound(None, members), d).len(),
            ValueTree::Compound(None, members),
        ),
{
    let read = members_at(data, d, at, Seq::empty(), depth + 1)->Ok_0.0;
    let node = BorrowTree::Compound(at as usize, None, read);
    assert(open_at(data, d, 10, at) == Ok::<(BorrowTree, bool, int), NbtError>(
        (BorrowTree::Compound(at as usize, None, Seq::empty()), true, at),
    ));
    assert(owned(data, d, node)->Compound_1 =~= members);
}

/// A payload without children that was written is read back.
pub proof fn lemma_leaf_round(data: Seq<u8>, d: Dialect, at: int, tree: ValueTree, depth: nat)
    requires
        holds(data, at, enc_payload(tree, d)),
        !(tree is List),
        !(tree is Compound),
        fits_format(tree, 0, d),
        data.len() <= usize::MAX,
    ensures
        reads_back(
            data,
            d,
            payload_at(data, d, tag_of(tree), at, depth),
            at + enc_payload(tree, d).len(),
            tree,
        ),
{
    match tree {
        ValueTree::String(_) => {
            lemma_string_round(data, d, at, tree);
        },
        ValueTree::ByteArray(_) | ValueTree::IntArray(_) | ValueTree::LongArray(_) => {
            lemma_array_round(data, d, at, tree);
        },
        _ => {
            lemma_scalar_round(data, d, at, tree);
        },
    }
}

/// A payload that was written is read back: the reader reads it in full,
/// and what it read decodes to the value.
pub proof fn lemma_payload_round(data: Seq<u8>, d: Dialect, at: int, tree: ValueTree, depth: nat)
    requires
        holds(data, at, enc_payload(tree, d)),
        depth <= RECURSE_LIMIT,
        fits_format(tree, (RECURSE_LIMIT - depth) as nat, d),
        data.len() <= usize::MAX,
    ensures
        reads_back(
            data,
            d,
            payload_at(data, d, tag_of(tree), at, depth),
            at + enc_payload(tree, d).len(),
            tree,
        ),
    decreases tree, 0nat,
{
    match tree {
        ValueTree::List(items) => {
            if items.len() > 0 {
                let head = seq![list_tag(items)] + enc_count(items.len(), d);
                assert(enc_payload(tree, d) =~= head + enc_items(items, 0, d));
                lemma_holds_split(data, at, head, enc_items(items, 0, d));
                assert forall|i: int| 0 <= i < items.len() implies tag_of(#[trigger] items[i])
                    == list_tag(items) by {}
                lemma_elements_round(
                    data,
                    d,
                    at + 1 + enc_count(items.len(), d).len(),
                    items,
                    0,
                    Seq::empty(),
                    depth + 1,
                );
            }
            lemma_list_round(data, d, at, items, depth);
        },
        ValueTree::Compound(name, members) => {
            lemma_members_round(data, d, at, members, 0, Seq::empty(), depth + 1);
            lemma_compound_round(data, d, at, members, depth);
        },
        _ => {
            lemma_leaf_round(data, d, at, tree, depth);
        },
    }
}

/// The items of a list that were written from number `from` on are read
/// back behind the items that were read before.
pub proof fn lemma_elements_round(
    data: Seq<u8>,
    d: Dialect,
    at: int,
    items: Seq<ValueTree>,
    from: nat,
    acc: Seq<BorrowTree>,
    depth: nat,
)
    requires
        holds(data, at, enc_items(items, from, d)),
        from <= items.len(),
        acc.len() == from,
        items_read_back(data, d, acc, items, from as int),
        1 <= depth <= RECURSE_LIMIT,
        forall|i: int|
            0 <= i < items.len() ==> fits_format(
                #[trigger] items[i],
                (RECURSE_LIMIT - depth) as nat,
                d,
            ) && tag_of(items[i]) == list_tag(items),
        data.len() <= usize::MAX,
    ensures
        match elements_at(data, d, list_tag(items), at, items.len(), acc, depth) {
            Ok((read, end)) => end == at + enc_items(items, from, d).len() && read.len()
                == items.len() && items_read_back(data, d, read, items, items.len() as int),
            Err(_) => false,
        },
    decreases items, items.len() - from,
{
    if from < items.len() {
        let item = items[from as int];
        lemma_holds_split(data, at, enc_payload(item, d), enc_items(items, from + 1, d));
        lemma_payload_round(data, d, at, item, depth);
        lemma_payload_advances(data, d, tag_of(item), at, depth);
        let (node, end) = payload_at(data, d, tag_of(item), at, depth)->Ok_0;
        let more = acc.push(node);
        assert(items_read_back(data, d, more, items, from as int + 1)) by {
            assert forall|i: int| 0 <= i < from + 1 implies owned(data, d, #[trigger] more[i])
                == items[i] by {
                if i < from {
                    assert(more[i] == acc[i]);
                }
            }
        }
        lemma_elements_round(data, d, end, items, from + 1, more, depth);
    }
}

/// The head of a member that was written is read as it is.
pub proof fn lemma_member_head_read(data: Seq<u8>, d: Dialect, at: int, tag: u8, name: Seq<u8>)
    requires
        holds(data, at, seq![tag] + enc_text(name, d)),
        tag != TAG_END,
        text_fits(name.len(), d),
        data.len() <= usize::MAX,
    ensures
        member_head_at(data, d, at) == Ok::<Option<(u8, usize, usize, int)>, NbtError>(
            Some(
                (
                    tag,
                    (at + 1 + enc_text_len(name.len(), d).len()) as usize,
                    name.len() as usize,
                    at + 1 + enc_text(name, d).len(),
                ),
            ),
        ),
        data.subrange(
            at + 1 + enc_text_len(name.len(), d).len(),
            at + 1 + enc_text_len(name.len(), d).len() + name.len(),
        ) == name,
{
    lemma_holds_split(data, at, seq![tag], enc_text(name, d));
    lemma_holds_byte(data, at, seq![tag], 0);
    lemma_text_read(data, d, at + 1, name);
}

/// A member that was read puts the reader behind it, with the member
/// behind those that were read before.
pub proof fn lemma_members_step(
    data: Seq<u8>,
    d: Dialect,
    at: int,
    acc: Seq<(usize, usize, BorrowTree)>,
    depth: nat,
    head: (u8, usize, usize, int),
    child: BorrowTree,
    end: int,
)
    requires
        depth <= RECURSE_LIMIT,
        member_head_at(data, d, at) == Ok::<Option<(u8, usize, usize, int)>, NbtError>(
            Some(head),
        ),
        payload_at(data, d, head.0, head.3, depth) == Ok::<(BorrowTree, int), NbtError>(
            (child, end),
        ),
        advanced(data, at, end),
    ensures
        members_at(data, d, at, acc, depth) == members_at(
            data,
            d,
            end,
            acc.push((head.1, head.2, child)),
            depth,
        ),
{
}

/// The end of a compound that was written is read as it is.
pub proof fn lemma_members_end(
    data: Seq<u8>,
    d: Dialect,
    at: int,
    acc: Seq<(usize, usize, BorrowTree)>,
    depth: nat,
)
    requires
        depth <= RECURSE_LIMIT,
        holds(data, at, seq![TAG_END]),
    ensures
        members_at(data, d, at, acc, depth) == Ok::<
            (Seq<(usize, usize, BorrowTree)>, int),
            NbtError,
        >((acc, at + 1)),
{
    lemma_holds_byte(data, at, seq![TAG_END], 0);
}

/// The members of a compound that were written from number `from` on, and
/// the end of the compound behind them, are read back behind the members
/// that were read before.
#[verifier::rlimit(20)]
pub proof fn lemma_members_round(
    data: Seq<u8>,
    d: Dialect,
    at: int,
    members: Seq<(Seq<u8>, ValueTree)>,
    from: nat,
    acc: Seq<(usize, usize, BorrowTree)>,
    depth: nat,
)
    requires
        holds(data, at, enc_members(members, from, d) + seq![TAG_END]),
        from <= members.len(),
        acc.len() == from,
        members_read_back(data, d, acc, members, from as int),
        1 <= depth <= RECURSE_LIMIT,
        members_fit(members, (RECURSE_LIMIT - depth) as nat, d),
        data.len() <= usize::MAX,
    ensures
        match members_at(data, d, at, acc, depth) {
            Ok((read, end)) => end == at + enc_members(members, from, d).len() + 1 && read.len()
                == members.len() && members_read_back(data, d, read, members, members.len() as int),
            Err(_) => false,
        },
    decreases members, members.len() - from,
{
    if from >= members.len() {
        assert(enc_members(members, from, d) + seq![TAG_END] =~= seq![TAG_END]);
        lemma_members_end(data, d, at, acc, depth);
    } else {
        let (name, value) = members[from as int];
        let rest = enc_members(members, from + 1, d) + seq![TAG_END];
        let head = seq![tag_of(value)] + enc_text(name, d);
        assert(enc_members(members, from, d) + seq![TAG_END] =~= head + enc_payload(value, d)
            + rest);
        lemma_holds_split(data, at, head + enc_payload(value, d), rest);
        lemma_holds_split(data, at, head, enc_payload(value, d));
        lemma_member_head_read(data, d, at, tag_of(value), name);
        let name_start = at + 1 + enc_text_len(name.len(), d).len();
        let start = at + 1 + enc_text(name, d).len();
        assert(head.len() == 1 + enc_text(name, d).len());
        lemma_payload_round(data, d, start, value, depth);
        lemma_payload_advances(data, d, tag_of(value), start, depth);
        let (node, end) = payload_at(data, d, tag_of(value), start, depth)->Ok_0;
        lemma_members_step(
            data,
            d,
            at,
            acc,
            depth,
            (tag_of(value), name_start as usize, name.len() as usize, start),
            node,
            end,
        );
        let more = acc.push((name_start as usize, name.len() as usize, node));
        assert(members_read_back(data, d, more, members, from as int + 1)) by {
            assert forall|i: int| 0 <= i < from + 1 implies data.subrange(
                (#[trigger] more[i]).0 as int,
                more[i].0 + more[i].1,
            ) == members[i].0 && owned(data, d, more[i].2) == members[i].1 by {
                if i < from {
                    assert(more[i] == acc[i]);
                }
            }
        }
        lemma_members_round(data, d, end, members, from + 1, more, depth);
    }
}

/// The tag and the name of a root that were written are read as they are:
/// what the reader makes of the buffer is what it makes of the members
/// behind them.
pub proof fn lemma_root_head_read(data: Seq<u8>, d: Dialect, name: Seq<u8>)
    requires
        d.root_named(),
        holds(data, 0, seq![TAG_COMPOUND] + enc_text(name, d)),
        text_fits(name.len(), d),
        data.len() <= usize::MAX,
    ensures
        root_at(data, d, 0) == match members_at(
            data,
            d,
            1 + enc_text(name, d).len() as int,
            Seq::empty(),
            1,
        ) {
            Ok((read, end)) => Ok::<(BorrowTree, int), NbtError>(
                (BorrowTree::Compound(0, Some(name.len() as usize), read), end),
            ),
            Err(e) => Err(e),
        },
        name_at(data, d, 0, name.len() as usize) == Some(
            1 + enc_text_len(name.len(), d).len() as int,
        ),
        data.subrange(
            1 + enc_text_len(name.len(), d).len() as int,
            1 + enc_text_len(name.len(), d).len() as int + name.len(),
        ) == name,
{
    lemma_holds_split(data, 0, seq![TAG_COMPOUND], enc_text(name, d));
    lemma_holds_byte(data, 0, seq![TAG_COMPOUND], 0);
    lemma_text_read(data, d, 1, name);
}

/// A root whose name and members are read back decodes to the tree.
pub proof fn lemma_named_root_owned(
    data: Seq<u8>,
    d: Dialect,
    name: Seq<u8>,
    start: int,
    members: Seq<(Seq<u8>, ValueTree)>,
    read: Seq<(usize, usize, BorrowTree)>,
)
    requires
        name.len() <= usize::MAX,
        name_at(data, d, 0, name.len() as usize) == Some(start),
        data.subrange(start, start + name.len()) == name,
        read.len() == members.len(),
        members_read_back(data, d, read, members, members.len() as int),
    ensures
        owned(data, d, BorrowTree::Compound(0, Some(name.len() as usize), read))
            == ValueTree::Compound(Some(name), members),
{
    let node = BorrowTree::Compound(0, Some(name.len() as usize), read);
    assert(owned(data, d, node)->Compound_1 =~= members);
}

/// A root with a name that stands at the start of a buffer is read back.
pub proof fn lemma_named_root_read(
    data: Seq<u8>,
    d: Dialect,
    name: Seq<u8>,
    members: Seq<(Seq<u8>, ValueTree)>,
)
    requires
        d.root_named(),
        holds(
            data,
            0,
            seq![TAG_COMPOUND] + enc_text(name, d) + (enc_members(members, 0, d) + seq![TAG_END]),
        ),
        text_fits(name.len(), d),
        members_fit(members, (RECURSE_LIMIT - 1) as nat, d),
        data.len() <= usize::MAX,
    ensures
        reads_back(
            data,
            d,
            root_at(data, d, 0),
            1 + enc_text(name, d).len() as int + enc_members(members, 0, d).len() + 1,
            ValueTree::Compound(Some(name), members),
        ),
{
    let body = enc_members(members, 0, d) + seq![TAG_END];
    let head = seq![TAG_COMPOUND] + enc_text(name, d);
    lemma_holds_split(data, 0, head, body);
    lemma_root_head_read(data, d, name);
    let first = 1 + enc_text(name, d).len() as int;
    assert(head.len() == first);
    lemma_members_round(data, d, first, members, 0, Seq::empty(), 1);
    let read = members_at(data, d, first, Seq::empty(), 1)->Ok_0.0;
    lemma_named_root_owned(
        data,
        d,
        name,
        1 + enc_text_len(name.len(), d).len() as int,
        members,
        read,
    );
}

/// A root without a name that stands at the start of a buffer is read
/// back.
pub proof fn lemma_nameless_root_read(
    data: Seq<u8>,
    d: Dialect,
    members: Seq<(Seq<u8>, ValueTree)>,
)
    requires
        !d.root_named(),
        holds(data, 0, seq![TAG_COMPOUND] + (enc_members(members, 0, d) + seq![TAG_END])),
        members_fit(members, (RECURSE_LIMIT - 1) as nat, d),
        data.len() <= usize::MAX,
    ensures
        reads_back(
            data,
            d,
            root_at(data, d, 0),
            1 + enc_members(members, 0, d).len() as int + 1,
            ValueTree::Compound(None, members),
        ),
{
    let body = enc_members(members, 0, d) + seq![TAG_END];
    lemma_holds_split(data, 0, seq![TAG_COMPOUND], body);
    lemma_holds_byte(data, 0, seq![TAG_COMPOUND], 0);
    lemma_members_round(data, d, 1, members, 0, Seq::empty(), 1);
    let read = members_at(data, d, 1, Seq::empty(), 1)->Ok_0.0;
    let node = BorrowTree::Compound(0, None, read);
    assert(owned(data, d, node)->Compound_1 =~= members);
}

/// A list that stands as the root at the start of a buffer is read back.
pub proof fn lemma_list_root_read(data: Seq<u8>, d: Dialect, tree: ValueTree)
    requires
        d.root_list(),
        tree is List,
        holds(data, 0, seq![TAG_LIST] + enc_payload(tree, d)),
        fits_format(tree, RECURSE_LIMIT as nat, d),
        data.len() <= usize::MAX,
    ensures
        reads_back(data, d, root_at(data, d, 0), 1 + enc_payload(tree, d).len() as int, tree),
{
    lemma_holds_split(data, 0, seq![TAG_LIST], enc_payload(tree, d));
    lemma_holds_byte(data, 0, seq![TAG_LIST], 0);
    lemma_payload_round(data, d, 1, tree, 0);
}

/// What a root is written as, part by part.
pub proof fn lemma_enc_root(tree: ValueTree, d: Dialect)
    ensures
        match tree {
            ValueTree::Compound(name, members) => if d.root_named() {
                enc_root(tree, d) == seq![TAG_COMPOUND] + enc_text(root_name(name), d) + (
                enc_members(members, 0, d) + seq![TAG_END]) && enc_root(tree, d).len() == 1
                    + enc_text(root_name(name), d).len() + enc_members(members, 0, d).len() + 1
            } else {
                enc_root(tree, d) == seq![TAG_COMPOUND] + (enc_members(members, 0, d)
                    + seq![TAG_END]) && enc_root(tree, d).len() == 1 + enc_members(
                    members,
                    0,
                    d,
                ).len() + 1
            },
            ValueTree::List(_) => enc_root(tree, d).len() == 1 + enc_payload(tree, d).len(),
            _ => true,
        },
{
    match tree {
        ValueTree::Compound(name, members) => {
            let body = enc_members(members, 0, d) + seq![TAG_END];
            assert(enc_payload(tree, d) == body);
            if d.root_named() {
                assert(enc_root(tree, d) =~= seq![TAG_COMPOUND] + enc_text(root_name(name), d)
                    + body);
            } else {
                assert(enc_root(tree, d) =~= seq![TAG_COMPOUND] + body);
            }
        },
        _ => {},
    }
}

/// Round trip: a tree that is written in a dialect is read back in full in
/// that dialect, and what was read decodes to the tree, with every member
/// in its place.
///
/// This holds in each of the four dialects, of the trees that the dialect
/// can carry (see [`root_fits`]), written into a buffer whose length a
/// `usize` holds.
pub proof fn lemma_round_trip(tree: ValueTree, d: Dialect)
    requires
        root_fits(tree, d),
        enc_root(tree, d).len() <= usize::MAX,
    ensures
        reads_back(
            enc_root(tree, d),
            d,
            root_at(enc_root(tree, d), d, 0),
            enc_root(tree, d).len() as int,
            tree,
        ),
{
    let data = enc_root(tree, d);
    lemma_holds_all(data);
    lemma_enc_root(tree, d);
    match tree {
        ValueTree::Compound(Some(name), members) => {
            lemma_named_root_read(data, d, name, members);
        },
        ValueTree::Compound(None, members) => {
            lemma_nameless_root_read(data, d, members);
        },
        ValueTree::List(_) => {
            lemma_list_root_read(data, d, tree);
        },
        _ => {},
    }
}

/// Round trip under the Java dialect: a tree with a name on its root that
/// the Java edition writes is read back and decodes to the tree.
pub proof fn lemma_round_trip_java(tree: ValueTree)
    requires
        root_fits(tree, Dialect::Java),
        enc_root(tree, Dialect::Java).len() <= usize::MAX,
    ensures
        reads_back(
            enc_root(tree, Dialect::Java),
            Dialect::Java,
            root_at(enc_root(tree, Dialect::Java), Dialect::Java, 0),
            enc_root(tree, Dialect::Java).len() as int,
            tree,
        ),
{
    lemma_round_trip(tree, Dialect::Java);
}

/// Dialect endianness: a tree that both can carry decodes to the same
/// values from what the Java edition writes and from what the Bedrock
/// edition stores, though every number in it has its bytes in the other
/// order.
pub proof fn lemma_dialects_agree(tree: ValueTree, one: Dialect, other: Dialect)
    requires
        root_fits(tree, one),
        root_fits(tree, other),
        enc_root(tree, one).len() <= usize::MAX,
        enc_root(tree, other).len() <= usize::MAX,
    ensures
        root_at(enc_root(tree, one), one, 0) is Ok,
        root_at(enc_root(tree, other), other, 0) is Ok,
        owned(enc_root(tree, one), one, root_at(enc_root(tree, one), one, 0)->Ok_0.0) == owned(
            enc_root(tree, other),
            other,
            root_at(enc_root(tree, other), other, 0)->Ok_0.0,
        ),
{
    lemma_round_trip(tree, one);
    lemma_round_trip(tree, other);
}

} // verus!
