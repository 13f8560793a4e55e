//! The wire format, as functions from a buffer and a position to what stands
//! there: the tree of offsets and the position behind it, or the error that
//! a reader meets first.

use vstd::prelude::*;
use crate::borrow::BorrowTree;
use crate::error::NbtError;
use crate::nbt_consts::{
    TAG_BYTE, TAG_BYTE_ARRAY, TAG_COMPOUND, TAG_DOUBLE, TAG_END, TAG_FLOAT, TAG_INT,
    TAG_INT_ARRAY, TAG_LIST, TAG_LONG, TAG_LONG_ARRAY, TAG_SHORT, TAG_STRING,
};
use crate::nbt_version::Dialect;
use crate::wire::{signed32, u16_at, u32_at, var_i32_at, zigzag};
use crate::RECURSE_LIMIT;

verus! {

/// The error of a read of `width` bytes at `at` that does not fit. A width
/// that no `usize` holds is reported as the largest one.
pub open spec fn overflow_at(data: Seq<u8>, at: int, width: int) -> NbtError {
    NbtError::CursorOverflow(
        at as usize,
        if width > usize::MAX {
            usize::MAX
        } else {
            width as usize
        },
        data.len() as usize,
    )
}

/// Where a reader stands after `width` bytes from `at` on, if the buffer
/// holds them.
pub open spec fn skip_at(data: Seq<u8>, at: int, width: int) -> Result<int, NbtError> {
    if at + width <= data.len() {
        Ok(at + width)
    } else {
        Err(overflow_at(data, at, width))
    }
}

/// The count of a list or an array of tag `tag` that stands at `at`, and
/// where the next read starts: 32 bits in the dialect's byte order, or a
/// zig-zag variable-length integer. A negative count is an error.
pub open spec fn count_at(data: Seq<u8>, d: Dialect, at: int, tag: u8) -> Result<
    (usize, int),
    NbtError,
> {
    if d.var_len() {
        match var_i32_at(data, at) {
            Err(e) => Err(e),
            Ok((raw, next)) => {
                let v = zigzag(raw as int);
                if v < 0 {
                    Err(NbtError::LenNegative(tag, v as i32))
                } else {
                    Ok((v as usize, next))
                }
            },
        }
    } else if at + 4 <= data.len() {
        let v = signed32(u32_at(data, at, d.little_endian()));
        if v < 0 {
            Err(NbtError::LenNegative(tag, v as i32))
        } else {
            Ok((v as usize, at + 4))
        }
    } else {
        Err(overflow_at(data, at, 4))
    }
}

/// The length of a string or a name that stands at `at`, and where its bytes
/// start: 16 bits in the dialect's byte order, or a plain variable-length
/// integer, of which a negative one is an error.
pub open spec fn text_len_at(data: Seq<u8>, d: Dialect, at: int) -> Result<(usize, int), NbtError> {
    if d.var_len() {
        match var_i32_at(data, at) {
            Err(e) => Err(e),
            Ok((raw, next)) => if raw < 0 {
                Err(NbtError::LenNegative(TAG_STRING, raw))
            } else {
                Ok((raw as usize, next))
            },
        }
    } else if at + 2 <= data.len() {
        Ok((u16_at(data, at, d.little_endian()) as usize, at + 2))
    } else {
        Err(overflow_at(data, at, 2))
    }
}

/// How many bytes one element of an array of tag `tag` takes.
pub open spec fn element_width(tag: u8) -> int {
    if tag == TAG_INT_ARRAY {
        4
    } else if tag == TAG_LONG_ARRAY {
        8
    } else {
        1
    }
}

/// How many bytes a number of tag `tag` takes.
pub open spec fn scalar_width(tag: u8) -> int {
    if tag == TAG_BYTE {
        1
    } else if tag == TAG_SHORT {
        2
    } else if tag == TAG_INT || tag == TAG_FLOAT {
        4
    } else {
        8
    }
}

/// Whether `tag` is that of a number.
pub open spec fn is_scalar(tag: u8) -> bool {
    TAG_BYTE <= tag <= TAG_DOUBLE
}

/// Whether `tag` is that of an array.
pub open spec fn is_array(tag: u8) -> bool {
    tag == TAG_BYTE_ARRAY || tag == TAG_INT_ARRAY || tag == TAG_LONG_ARRAY
}

/// The node of a number of tag `tag` at `at`.
pub open spec fn scalar_node(tag: u8, at: usize) -> BorrowTree {
    if tag == TAG_BYTE {
        BorrowTree::Byte(at)
    } else if tag == TAG_SHORT {
        BorrowTree::Short(at)
    } else if tag == TAG_INT {
        BorrowTree::Int(at)
    } else if tag == TAG_LONG {
        BorrowTree::Long(at)
    } else if tag == TAG_FLOAT {
        BorrowTree::Float(at)
    } else {
        BorrowTree::Double(at)
    }
}

/// The node of an array of tag `tag` whose `count` elements start at `at`.
pub open spec fn array_node(tag: u8, at: usize, count: usize) -> BorrowTree {
    if tag == TAG_BYTE_ARRAY {
        BorrowTree::ByteArray(at, count)
    } else if tag == TAG_INT_ARRAY {
        BorrowTree::IntArray(at, count)
    } else {
        BorrowTree::LongArray(at, count)
    }
}

/// A number of tag `tag` at `at`, and where it ends.
pub open spec fn scalar_at(data: Seq<u8>, tag: u8, at: int) -> Result<(BorrowTree, int), NbtError> {
    match skip_at(data, at, scalar_width(tag)) {
        Err(e) => Err(e),
        Ok(end) => Ok((scalar_node(tag, at as usize), end)),
    }
}

/// An array of tag `tag` whose count stands at `at`, and where it ends.
pub open spec fn array_at(data: Seq<u8>, d: Dialect, tag: u8, at: int) -> Result<
    (BorrowTree, int),
    NbtError,
> {
    match count_at(data, d, at, tag) {
        Err(e) => Err(e),
        Ok((count, start)) => match skip_at(data, start, count * element_width(tag)) {
            Err(e) => Err(e),
            Ok(end) => Ok((array_node(tag, start as usize, count), end)),
        },
    }
}

/// A string whose length stands at `at`, and where it ends.
pub open spec fn string_at(data: Seq<u8>, d: Dialect, at: int) -> Result<
    (BorrowTree, int),
    NbtError,
> {
    match text_len_at(data, d, at) {
        Err(e) => Err(e),
        Ok((len, start)) => match skip_at(data, start, len as int) {
            Err(e) => Err(e),
            Ok(end) => Ok((BorrowTree::String(start as usize, len), end)),
        },
    }
}

/// The head of a list at `at`: the list without its elements, whether
/// elements are still to be read into it, and where the next read starts.
///
/// A list of elements tagged `TAG_END` has no children, and takes one byte
/// for each that it declares: it is complete. Any other list comes back
/// open, with the reader at its first element.
pub open spec fn list_head_at(data: Seq<u8>, d: Dialect, at: int) -> Result<
    (BorrowTree, bool, int),
    NbtError,
> {
    if at + 1 > data.len() {
        Err(overflow_at(data, at, 1))
    } else if data[at] > TAG_LONG_ARRAY {
        Err(NbtError::UnknownType(data[at]))
    } else {
        match count_at(data, d, at + 1, data[at]) {
            Err(e) => Err(e),
            Ok((count, start)) => {
                let node = BorrowTree::List((at + 1) as usize, count, data[at], Seq::empty());
                if data[at] == TAG_END {
                    match skip_at(data, start, count as int) {
                        Err(e) => Err(e),
                        Ok(end) => Ok((node, false, end)),
                    }
                } else {
                    Ok((node, true, start))
                }
            },
        }
    }
}

/// A complete node as the start of a payload.
pub open spec fn closed(r: Result<(BorrowTree, int), NbtError>) -> Result<
    (BorrowTree, bool, int),
    NbtError,
> {
    match r {
        Err(e) => Err(e),
        Ok((node, end)) => Ok((node, false, end)),
    }
}

/// What a reader makes of the start of a payload of tag `tag` at `at`: the
/// node, whether children are still to be read into it, and where the next
/// read starts.
///
/// A number, an array and a string are complete: the reader stands behind
/// them. A compound comes back empty, with the reader at its first member;
/// for a list see [`list_head_at`].
pub open spec fn open_at(data: Seq<u8>, d: Dialect, tag: u8, at: int) -> Result<
    (BorrowTree, bool, int),
    NbtError,
> {
    if is_scalar(tag) {
        closed(scalar_at(data, tag, at))
    } else if is_array(tag) {
        closed(array_at(data, d, tag, at))
    } else if tag == TAG_STRING {
        closed(string_at(data, d, at))
    } else if tag == TAG_LIST {
        list_head_at(data, d, at)
    } else if tag == TAG_COMPOUND {
        Ok((BorrowTree::Compound(at as usize, None, Seq::empty()), true, at))
    } else {
        Err(NbtError::UnknownType(tag))
    }
}

/// What stands before a member of a compound at `at`: nothing more where the
/// byte there is `TAG_END`, else the member's tag, where its name starts,
/// how long the name is, and where its payload starts.
pub open spec fn member_head_at(data: Seq<u8>, d: Dialect, at: int) -> Result<
    Option<(u8, usize, usize, int)>,
    NbtError,
> {
    if at + 1 > data.len() {
        Err(overflow_at(data, at, 1))
    } else if data[at] == TAG_END {
        Ok(None)
    } else {
        match text_len_at(data, d, at + 1) {
            Err(e) => Err(e),
            Ok((len, start)) => match skip_at(data, start, len as int) {
                Err(e) => Err(e),
                Ok(payload) => Ok(Some((data[at], start as usize, len, payload))),
            },
        }
    }
}

/// Whether a value that starts at `at` and ends before `end` has taken at
/// least one byte of the buffer. Every value does
/// ([`lemma_payload_advances`]).
pub open spec fn advanced(data: Seq<u8>, at: int, end: int) -> bool {
    at < end <= data.len()
}

/// The payload of tag `tag` at `at`, inside `depth` lists and compounds, and
/// where it ends.
pub open spec fn payload_at(data: Seq<u8>, d: Dialect, tag: u8, at: int, depth: nat) -> Result<
    (BorrowTree, int),
    NbtError,
>
    decreases data.len() - at, 1nat,
{
    match open_at(data, d, tag, at) {
        Err(e) => Err(e),
        Ok((node, false, end)) => Ok((node, end)),
        Ok((BorrowTree::Compound(ptr, name, _), true, start)) => match members_at(
            data,
            d,
            start,
            Seq::empty(),
            depth + 1,
        ) {
            Err(e) => Err(e),
            Ok((members, end)) => Ok((BorrowTree::Compound(ptr, name, members), end)),
        },
        Ok((BorrowTree::List(ptr, count, of, _), true, start)) => match elements_at(
            data,
            d,
            of,
            start,
            count as nat,
            Seq::empty(),
            depth + 1,
        ) {
            Err(e) => Err(e),
            Ok((items, end)) => Ok((BorrowTree::List(ptr, count, of, items), end)),
        },
        Ok((node, true, end)) => Ok((node, end)),
    }
}

/// The members of a compound from `at` on, behind the members `acc` that
/// were read before, the compound being number `depth` of the lists and
/// compounds around `at`; and where the compound ends.
pub open spec fn members_at(
    data: Seq<u8>,
    d: Dialect,
    at: int,
    acc: Seq<(usize, usize, BorrowTree)>,
    depth: nat,
) -> Result<(Seq<(usize, usize, BorrowTree)>, int), NbtError>
    decreases data.len() - at, 0nat,
{
    if depth > RECURSE_LIMIT {
        Err(NbtError::NbtDepthTooBig(RECURSE_LIMIT))
    } else {
        match member_head_at(data, d, at) {
            Err(e) => Err(e),
            Ok(None) => Ok((acc, at + 1)),
            Ok(Some((tag, name_start, name_len, start))) => match payload_at(
                data,
                d,
                tag,
                start,
                depth,
            ) {
                Err(e) => Err(e),
                Ok((child, end)) => if advanced(data, at, end) {
                    members_at(data, d, end, acc.push((name_start, name_len, child)), depth)
                } else {
                    Err(overflow_at(data, at, 0))
                },
            },
        }
    }
}

/// The elements of a list of `count` elements of tag `tag` from `at` on,
/// behind the elements `acc` that were read before, the list being number
/// `depth` of the lists and compounds around `at`; and where the list ends.
pub open spec fn elements_at(
    data: Seq<u8>,
    d: Dialect,
    tag: u8,
    at: int,
    count: nat,
    acc: Seq<BorrowTree>,
    depth: nat,
) -> Result<(Seq<BorrowTree>, int), NbtError>
    decreases data.len() - at, 2nat,
{
    if depth > RECURSE_LIMIT {
        Err(NbtError::NbtDepthTooBig(RECURSE_LIMIT))
    } else if acc.len() >= count {
        Ok((acc, at))
    } else {
        match payload_at(data, d, tag, at, depth) {
            Err(e) => Err(e),
            Ok((child, end)) => if advanced(data, at, end) {
                elements_at(data, d, tag, end, count, acc.push(child), depth)
            } else {
                Err(overflow_at(data, at, 0))
            },
        }
    }
}

/// The tree whose root tag stands at `at`, and where it ends.
///
/// The root is a compound, or, where the dialect has it so, a list. A
/// compound's name follows its tag where the dialect gives the root a name.
pub open spec fn root_at(data: Seq<u8>, d: Dialect, at: int) -> Result<(BorrowTree, int), NbtError> {
    if at + 1 > data.len() {
        Err(overflow_at(data, at, 1))
    } else if data[at] == TAG_COMPOUND {
        if d.root_named() {
            match text_len_at(data, d, at + 1) {
                Err(e) => Err(e),
                Ok((len, start)) => match skip_at(data, start, len as int) {
                    Err(e) => Err(e),
                    Ok(first) => match members_at(data, d, first, Seq::empty(), 1) {
                        Err(e) => Err(e),
                        Ok((members, end)) => Ok(
                            (BorrowTree::Compound(at as usize, Some(len), members), end),
                        ),
                    },
                },
            }
        } else {
            match members_at(data, d, at + 1, Seq::empty(), 1) {
                Err(e) => Err(e),
                Ok((members, end)) => Ok((BorrowTree::Compound(at as usize, None, members), end)),
            }
        }
    } else if data[at] == TAG_LIST && d.root_list() {
        payload_at(data, d, TAG_LIST, at + 1, 0)
    } else {
        Err(NbtError::WrongRootType(data[at]))
    }
}

/// Whether a node can have children.
pub open spec fn is_container(node: BorrowTree) -> bool {
    node is Compound || node is List
}

/// The members of a compound end behind where they start.
pub proof fn lemma_members_advance(
    data: Seq<u8>,
    d: Dialect,
    at: int,
    acc: Seq<(usize, usize, BorrowTree)>,
    depth: nat,
)
    ensures
        members_at(data, d, at, acc, depth) is Ok ==> advanced(
            data,
            at,
            members_at(data, d, at, acc, depth)->Ok_0.1,
        ),
    decreases data.len() - at,
{
    if depth <= RECURSE_LIMIT {
        match member_head_at(data, d, at) {
            Ok(Some((tag, name_start, name_len, start))) => {
                if at < start <= data.len() {
                    match payload_at(data, d, tag, start, depth) {
                        Ok((child, end)) => {
                            if advanced(data, at, end) {
                                lemma_members_advance(
                                    data,
                                    d,
                                    end,
                                    acc.push((name_start, name_len, child)),
                                    depth,
                                );
                            }
                        },
                        Err(_) => {},
                    }
                }
            },
            _ => {},
        }
    }
}

/// The elements of a list end where they start, or behind.
pub proof fn lemma_elements_advance(
    data: Seq<u8>,
    d: Dialect,
    tag: u8,
    at: int,
    count: nat,
    acc: Seq<BorrowTree>,
    depth: nat,
)
    requires
        at <= data.len(),
    ensures
        elements_at(data, d, tag, at, count, acc, depth) is Ok ==> at <= elements_at(
            data,
            d,
            tag,
            at,
            count,
            acc,
            depth,
        )->Ok_0.1 <= data.len(),
    decreases data.len() - at,
{
    if depth <= RECURSE_LIMIT && acc.len() < count {
        match payload_at(data, d, tag, at, depth) {
            Ok((child, end)) => {
                if advanced(data, at, end) {
                    lemma_elements_advance(data, d, tag, end, count, acc.push(child), depth);
                }
            },
            Err(_) => {},
        }
    }
}

/// A node that is complete when its start is read ends behind that start.
pub proof fn lemma_closed_advances(data: Seq<u8>, d: Dialect, tag: u8, at: int)
    requires
        0 <= at <= data.len(),
    ensures
        match open_at(data, d, tag, at) {
            Ok((node, open, end)) => at <= end <= data.len() && (!open ==> at < end) && (open
                ==> is_container(node)),
            Err(_) => true,
        },
{
}

/// Every payload takes at least one byte.
pub proof fn lemma_payload_advances(data: Seq<u8>, d: Dialect, tag: u8, at: int, depth: nat)
    requires
        0 <= at <= data.len(),
    ensures
        payload_at(data, d, tag, at, depth) is Ok ==> advanced(
            data,
            at,
            payload_at(data, d, tag, at, depth)->Ok_0.1,
        ),
{
    lemma_closed_advances(data, d, tag, at);
    match open_at(data, d, tag, at) {
        Ok((BorrowTree::Compound(ptr, name, _), true, start)) => {
            lemma_members_advance(data, d, start, Seq::empty(), depth + 1);
        },
        Ok((BorrowTree::List(ptr, count, of, _), true, start)) => {
            lemma_elements_advance(data, d, of, start, count as nat, Seq::empty(), depth + 1);
        },
        _ => {},
    }
}

} // verus!
