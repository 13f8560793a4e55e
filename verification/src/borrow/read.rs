//! The reader of the index-only tree. It keeps the lists and compounds that
//! are still open on a stack of its own, so that the nesting of the input
//! costs heap, never call depth, and is bounded.

use vstd::prelude::*;
use crate::borrow::bounds::{lemma_root_within, within};
use crate::borrow::layout::{
    array_at, count_at, elements_at, is_array, is_container, is_scalar, lemma_closed_advances,
    lemma_payload_advances, list_head_at, member_head_at, members_at, open_at, overflow_at,
    payload_at, root_at, scalar_at, skip_at, string_at, text_len_at,
};
use crate::borrow::{item_trees, member_trees, BorrowNbtValue, BorrowTree};
use crate::error::NbtError;
use crate::nbt_consts::{
    TAG_BYTE, TAG_BYTE_ARRAY, TAG_COMPOUND, TAG_DOUBLE, TAG_END, TAG_FLOAT, TAG_INT,
    TAG_INT_ARRAY, TAG_LIST, TAG_LONG, TAG_LONG_ARRAY, TAG_SHORT, TAG_STRING,
};
use crate::nbt_version::Dialect;
use crate::reader::NbtReader;
use crate::RECURSE_LIMIT;

verus! {

/// Reads the count of a list or an array of tag `tag`.
fn read_count(reader: &mut NbtReader, d: Dialect, tag: u8) -> (r: Result<usize, NbtError>)
    ensures
        final(reader).data@ == old(reader).data@,
        match r {
            Ok(count) => count_at(old(reader).data@, d, old(reader).cursor as int, tag) == Ok::<
                (usize, int),
                NbtError,
            >((count, final(reader).cursor as int)),
            Err(e) => count_at(old(reader).data@, d, old(reader).cursor as int, tag) == Err::<
                (usize, int),
                NbtError,
            >(e),
        },
{
    let read = if d.has_var_len() {
        reader.read_zigzag_var_i32()
    } else if d.is_little_endian() {
        reader.read_le_i32()
    } else {
        reader.read_be_i32()
    };
    match read {
        Err(e) => Err(e),
        Ok(count) => if count < 0 {
            Err(NbtError::LenNegative(tag, count))
        } else {
            Ok(count as usize)
        },
    }
}

/// Reads the length of a string or a name.
pub(crate) fn read_text_len(reader: &mut NbtReader, d: Dialect) -> (r: Result<usize, NbtError>)
    ensures
        final(reader).data@ == old(reader).data@,
        match r {
            Ok(len) => text_len_at(old(reader).data@, d, old(reader).cursor as int) == Ok::<
                (usize, int),
                NbtError,
            >((len, final(reader).cursor as int)),
            Err(e) => text_len_at(old(reader).data@, d, old(reader).cursor as int) == Err::<
                (usize, int),
                NbtError,
            >(e),
        },
{
    if d.has_var_len() {
        match reader.read_var_i32() {
            Err(e) => Err(e),
            Ok(len) => if len < 0 {
                Err(NbtError::LenNegative(TAG_STRING, len))
            } else {
                Ok(len as usize)
            },
        }
    } else {
        let read = if d.is_little_endian() {
            reader.read_le_u16()
        } else {
            reader.read_be_u16()
        };
        match read {
            Err(e) => Err(e),
            Ok(len) => Ok(len as usize),
        }
    }
}

/// Moves the reader over `count` elements of `width` bytes each.
fn skip_elements(reader: &mut NbtReader, count: usize, width: usize) -> (r: Result<(), NbtError>)
    ensures
        final(reader).data@ == old(reader).data@,
        match r {
            Ok(_) => skip_at(old(reader).data@, old(reader).cursor as int, count * width) == Ok::<
                int,
                NbtError,
            >(final(reader).cursor as int),
            Err(e) => skip_at(old(reader).data@, old(reader).cursor as int, count * width)
                == Err::<int, NbtError>(e),
        },
{
    match count.checked_mul(width) {
        Some(span) => reader.roll_down(span),
        None => Err(NbtError::CursorOverflow(reader.cursor, usize::MAX, reader.data.len())),
    }
}

/// Reads over a number of tag `tag`.
fn read_scalar(reader: &mut NbtReader, tag: u8) -> (r: Result<BorrowNbtValue, NbtError>)
    requires
        is_scalar(tag),
    ensures
        final(reader).data@ == old(reader).data@,
        match r {
            Ok(node) => scalar_at(old(reader).data@, tag, old(reader).cursor as int) == Ok::<
                (BorrowTree, int),
                NbtError,
            >((node@, final(reader).cursor as int)),
            Err(e) => scalar_at(old(reader).data@, tag, old(reader).cursor as int) == Err::<
                (BorrowTree, int),
                NbtError,
            >(e),
        },
{
    let at = reader.cursor;
    let width: usize = if tag == TAG_BYTE {
        1
    } else if tag == TAG_SHORT {
        2
    } else if tag == TAG_INT || tag == TAG_FLOAT {
        4
    } else {
        8
    };
    match reader.roll_down(width) {
        Err(e) => Err(e),
        Ok(_) => if tag == TAG_BYTE {
            Ok(BorrowNbtValue::Byte(at))
        } else if tag == TAG_SHORT {
            Ok(BorrowNbtValue::Short(at))
        } else if tag == TAG_INT {
            Ok(BorrowNbtValue::Int(at))
        } else if tag == TAG_LONG {
            Ok(BorrowNbtValue::Long(at))
        } else if tag == TAG_FLOAT {
            Ok(BorrowNbtValue::Float(at))
        } else {
            Ok(BorrowNbtValue::Double(at))
        },
    }
}

/// Reads the count of an array of tag `tag`, and over its elements.
fn read_array(reader: &mut NbtReader, d: Dialect, tag: u8) -> (r: Result<
    BorrowNbtValue,
    NbtError,
>)
    requires
        is_array(tag),
    ensures
        final(reader).data@ == old(reader).data@,
        match r {
            Ok(node) => array_at(old(reader).data@, d, tag, old(reader).cursor as int) == Ok::<
                (BorrowTree, int),
                NbtError,
            >((node@, final(reader).cursor as int)),
            Err(e) => array_at(old(reader).data@, d, tag, old(reader).cursor as int) == Err::<
                (BorrowTree, int),
                NbtError,
            >(e),
        },
{
    let count = match read_count(reader, d, tag) {
        Err(e) => {
            return Err(e);
        },
        Ok(count) => count,
    };
    let start = reader.cursor;
    let width: usize = if tag == TAG_INT_ARRAY {
        4
    } else if tag == TAG_LONG_ARRAY {
        8
    } else {
        1
    };
    match skip_elements(reader, count, width) {
        Err(e) => Err(e),
        Ok(_) => if tag == TAG_BYTE_ARRAY {
            Ok(BorrowNbtValue::ByteArray(start, count))
        } else if tag == TAG_INT_ARRAY {
            Ok(BorrowNbtValue::IntArray(start, count))
        } else {
            Ok(BorrowNbtValue::LongArray(start, count))
        },
    }
}

/// Reads the length of a string, and over its bytes.
fn read_string_span(reader: &mut NbtReader, d: Dialect) -> (r: Result<
    BorrowNbtValue,
    NbtError,
>)
    ensures
        final(reader).data@ == old(reader).data@,
        match r {
            Ok(node) => string_at(old(reader).data@, d, old(reader).cursor as int) == Ok::<
                (BorrowTree, int),
                NbtError,
            >((node@, final(reader).cursor as int)),
            Err(e) => string_at(old(reader).data@, d, old(reader).cursor as int) == Err::<
                (BorrowTree, int),
                NbtError,
            >(e),
        },
{
    let len = match read_text_len(reader, d) {
        Err(e) => {
            return Err(e);
        },
        Ok(len) => len,
    };
    let start = reader.cursor;
    match reader.roll_down(len) {
        Err(e) => Err(e),
        Ok(_) => Ok(BorrowNbtValue::String(start, len)),
    }
}

/// Reads the head of a list: the tag of its elements and its count.
fn read_list_head(reader: &mut NbtReader, d: Dialect) -> (r: Result<
    (BorrowNbtValue, bool),
    NbtError,
>)
    ensures
        final(reader).data@ == old(reader).data@,
        match r {
            Ok((node, open)) => list_head_at(old(reader).data@, d, old(reader).cursor as int)
                == Ok::<(BorrowTree, bool, int), NbtError>(
                (node@, open, final(reader).cursor as int),
            ),
            Err(e) => list_head_at(old(reader).data@, d, old(reader).cursor as int) == Err::<
                (BorrowTree, bool, int),
                NbtError,
            >(e),
        },
{
    let of = match reader.read_u8() {
        Err(e) => {
            return Err(e);
        },
        Ok(of) => of,
    };
    let ptr = reader.cursor;
    if of > TAG_LONG_ARRAY {
        return Err(NbtError::UnknownType(of));
    }
    let count = match read_count(reader, d, of) {
        Err(e) => {
            return Err(e);
        },
        Ok(count) => count,
    };
    let node = BorrowNbtValue::List(ptr, count, of, Vec::new());
    assert(node@ == BorrowTree::List(ptr, count, of, Seq::empty())) by {
        assert(node@->List_3 =~= Seq::<BorrowTree>::empty());
    }
    if of == TAG_END {
        match reader.roll_down(count) {
            Err(e) => Err(e),
            Ok(_) => Ok((node, false)),
        }
    } else {
        Ok((node, true))
    }
}

/// Reads the start of a payload of tag `tag`: the node, and whether children
/// are still to be read into it.
fn read_open(reader: &mut NbtReader, d: Dialect, tag: u8) -> (r: Result<
    (BorrowNbtValue, bool),
    NbtError,
>)
    ensures
        final(reader).data@ == old(reader).data@,
        match r {
            Ok((node, open)) => open_at(old(reader).data@, d, tag, old(reader).cursor as int)
                == Ok::<(BorrowTree, bool, int), NbtError>(
                (node@, open, final(reader).cursor as int),
            ),
            Err(e) => open_at(old(reader).data@, d, tag, old(reader).cursor as int) == Err::<
                (BorrowTree, bool, int),
                NbtError,
            >(e),
        },
{
    if TAG_BYTE <= tag && tag <= TAG_DOUBLE {
        match read_scalar(reader, tag) {
            Err(e) => Err(e),
            Ok(node) => Ok((node, false)),
        }
    } else if tag == TAG_BYTE_ARRAY || tag == TAG_INT_ARRAY || tag == TAG_LONG_ARRAY {
        match read_array(reader, d, tag) {
            Err(e) => Err(e),
            Ok(node) => Ok((node, false)),
        }
    } else if tag == TAG_STRING {
        match read_string_span(reader, d) {
            Err(e) => Err(e),
            Ok(node) => Ok((node, false)),
        }
    } else if tag == TAG_LIST {
        read_list_head(reader, d)
    } else if tag == TAG_COMPOUND {
        let node = BorrowNbtValue::Compound(reader.cursor, None, Vec::new());
        assert(node@ == BorrowTree::Compound(reader.cursor, None, Seq::empty())) by {
            assert(node@->Compound_2 =~= Seq::<(usize, usize, BorrowTree)>::empty());
        }
        Ok((node, true))
    } else {
        Err(NbtError::UnknownType(tag))
    }
}

/// A list or compound that is still being read: the node with the children
/// read so far, and, where it is a member of a compound, its name's place.
pub struct Frame {
    /// Where the name starts.
    pub name_start: usize,
    /// How long the name is.
    pub name_len: usize,
    /// The node so far.
    pub node: BorrowNbtValue,
}

/// A frame as a value of specifications.
pub type FrameTree = (usize, usize, BorrowTree);

/// The frames of a stack, the outermost first.
pub open spec fn frame_trees(stack: Vec<Frame>) -> Seq<FrameTree> {
    Seq::new(
        stack.len() as nat,
        |i: int| (stack[i].name_start, stack[i].name_len, stack[i].node@),
    )
}

/// The node `parent` with `child` as one more child, a member named by the
/// `name_len` bytes at `name_start` where `parent` is a compound.
pub open spec fn attach(parent: BorrowTree, name_start: usize, name_len: usize, child: BorrowTree)
    -> BorrowTree {
    match parent {
        BorrowTree::Compound(ptr, name, members) => BorrowTree::Compound(
            ptr,
            name,
            members.push((name_start, name_len, child)),
        ),
        BorrowTree::List(ptr, count, of, items) => BorrowTree::List(
            ptr,
            count,
            of,
            items.push(child),
        ),
        _ => parent,
    }
}

/// The node that an open list or compound becomes when the rest of its
/// children is read from `at` on, it being number `depth` of the lists and
/// compounds around `at`; and where it ends.
pub open spec fn finish_at(data: Seq<u8>, d: Dialect, node: BorrowTree, at: int, depth: nat)
    -> Result<(BorrowTree, int), NbtError> {
    match node {
        BorrowTree::Compound(ptr, name, acc) => match members_at(data, d, at, acc, depth) {
            Err(e) => Err(e),
            Ok((members, end)) => Ok((BorrowTree::Compound(ptr, name, members), end)),
        },
        BorrowTree::List(ptr, count, of, acc) => match elements_at(
            data,
            d,
            of,
            at,
            count as nat,
            acc,
            depth,
        ) {
            Err(e) => Err(e),
            Ok((items, end)) => Ok((BorrowTree::List(ptr, count, of, items), end)),
        },
        _ => Ok((node, at)),
    }
}

/// What a reader with the open lists and compounds `frames`, the innermost
/// last, returns when it goes on at `at`: the outermost node, complete, and
/// where it ends.
pub open spec fn resume(data: Seq<u8>, d: Dialect, frames: Seq<FrameTree>, at: int) -> Result<
    (BorrowTree, int),
    NbtError,
>
    decreases frames.len(),
{
    if frames.len() == 0 {
        Err(overflow_at(data, at, 0))
    } else {
        match finish_at(data, d, frames.last().2, at, frames.len()) {
            Err(e) => Err(e),
            Ok((node, end)) => if frames.len() == 1 {
                Ok((node, end))
            } else {
                resume(data, d, close_top(frames, node), end)
            },
        }
    }
}

/// The frames without the innermost, which has become `node` and is now a
/// child of the one around it.
pub open spec fn close_top(frames: Seq<FrameTree>, node: BorrowTree) -> Seq<FrameTree> {
    let top = frames.last();
    let parent = frames[frames.len() - 2];
    frames.take(frames.len() - 2).push(
        (parent.0, parent.1, attach(parent.2, top.0, top.1, node)),
    )
}

/// The frames with `node` in place of the innermost node.
pub open spec fn replace_top(frames: Seq<FrameTree>, node: BorrowTree) -> Seq<FrameTree> {
    frames.drop_last().push((frames.last().0, frames.last().1, node))
}

/// The payload of a list or compound is what its empty node becomes when
/// its children are read.
pub proof fn lemma_payload_opens(data: Seq<u8>, d: Dialect, tag: u8, at: int, depth: nat)
    requires
        0 <= at <= data.len(),
    ensures
        match open_at(data, d, tag, at) {
            Ok((node, open, start)) => payload_at(data, d, tag, at, depth) == if open {
                finish_at(data, d, node, start, depth + 1)
            } else {
                Ok::<(BorrowTree, int), NbtError>((node, start))
            },
            Err(e) => payload_at(data, d, tag, at, depth) == Err::<(BorrowTree, int), NbtError>(e),
        },
{
    lemma_closed_advances(data, d, tag, at);
}

/// A reader whose innermost node is complete goes on with the node around
/// it, or is done.
pub proof fn lemma_resume_close(data: Seq<u8>, d: Dialect, frames: Seq<FrameTree>, at: int, end: int)
    requires
        frames.len() >= 1,
        finish_at(data, d, frames.last().2, at, frames.len()) == Ok::<(BorrowTree, int), NbtError>(
            (frames.last().2, end),
        ),
    ensures
        resume(data, d, frames, at) == if frames.len() == 1 {
            Ok::<(BorrowTree, int), NbtError>((frames.last().2, end))
        } else {
            resume(data, d, close_top(frames, frames.last().2), end)
        },
{
}

/// Where the innermost node becomes the same from two states, the reader
/// returns the same from both.
pub proof fn lemma_resume_replace(
    data: Seq<u8>,
    d: Dialect,
    frames: Seq<FrameTree>,
    at: int,
    node: BorrowTree,
    end: int,
)
    requires
        frames.len() >= 1,
        finish_at(data, d, frames.last().2, at, frames.len()) == finish_at(
            data,
            d,
            node,
            end,
            frames.len(),
        ),
    ensures
        resume(data, d, frames, at) == resume(data, d, replace_top(frames, node), end),
{
    let other = replace_top(frames, node);
    assert(other.len() == frames.len());
    match finish_at(data, d, node, end, frames.len()) {
        Ok((full, behind)) => {
            if frames.len() > 1 {
                assert(close_top(frames, full) =~= close_top(other, full));
            }
        },
        Err(_) => {},
    }
}

/// A reader that has opened a child returns what it would have returned
/// before, where the node around the child becomes the same with the child
/// complete in it.
pub proof fn lemma_resume_push(
    data: Seq<u8>,
    d: Dialect,
    frames: Seq<FrameTree>,
    at: int,
    child: FrameTree,
    start: int,
)
    requires
        frames.len() >= 1,
        finish_at(data, d, frames.last().2, at, frames.len()) == match finish_at(
            data,
            d,
            child.2,
            start,
            frames.len() + 1,
        ) {
            Err(e) => Err::<(BorrowTree, int), NbtError>(e),
            Ok((full, end)) => finish_at(
                data,
                d,
                attach(frames.last().2, child.0, child.1, full),
                end,
                frames.len(),
            ),
        },
    ensures
        resume(data, d, frames.push(child), start) == resume(data, d, frames, at),
{
    let deeper = frames.push(child);
    assert(deeper.last() == child);
    assert(deeper.len() == frames.len() + 1);
    match finish_at(data, d, child.2, start, frames.len() + 1) {
        Ok((full, end)) => {
            let grown = attach(frames.last().2, child.0, child.1, full);
            assert(close_top(deeper, full) =~= replace_top(frames, grown));
            lemma_resume_replace(data, d, frames, at, grown, end);
        },
        Err(_) => {},
    }
}

/// What reading one more member does to an open compound.
pub proof fn lemma_member_step(data: Seq<u8>, d: Dialect, node: BorrowTree, at: int, depth: nat)
    requires
        node is Compound,
        depth <= RECURSE_LIMIT,
        0 <= at <= data.len(),
    ensures
        match member_head_at(data, d, at) {
            Err(e) => finish_at(data, d, node, at, depth) == Err::<(BorrowTree, int), NbtError>(e),
            Ok(None) => finish_at(data, d, node, at, depth) == Ok::<(BorrowTree, int), NbtError>(
                (node, at + 1),
            ),
            Ok(Some((tag, name_start, name_len, start))) => at < start <= data.len()
                && match open_at(data, d, tag, start) {
                Err(e) => finish_at(data, d, node, at, depth) == Err::<
                    (BorrowTree, int),
                    NbtError,
                >(e),
                Ok((child, open, next)) => start <= next <= data.len() && (open ==> is_container(
                    child,
                )) && (!open ==> at < next) && finish_at(data, d, node, at, depth) == if open {
                    match finish_at(data, d, child, next, depth + 1) {
                        Err(e) => Err::<(BorrowTree, int), NbtError>(e),
                        Ok((full, end)) => finish_at(
                            data,
                            d,
                            attach(node, name_start, name_len, full),
                            end,
                            depth,
                        ),
                    }
                } else {
                    finish_at(data, d, attach(node, name_start, name_len, child), next, depth)
                },
            },
        },
{
    match member_head_at(data, d, at) {
        Ok(Some((tag, name_start, name_len, start))) => {
            lemma_closed_advances(data, d, tag, start);
            lemma_payload_opens(data, d, tag, start, depth);
            lemma_payload_advances(data, d, tag, start, depth);
        },
        _ => {},
    }
}

/// What reading one more element does to an open list.
pub proof fn lemma_element_step(data: Seq<u8>, d: Dialect, node: BorrowTree, at: int, depth: nat)
    requires
        node is List,
        depth <= RECURSE_LIMIT,
        0 <= at <= data.len(),
    ensures
        node->List_3.len() >= node->List_1 ==> finish_at(data, d, node, at, depth) == Ok::<
            (BorrowTree, int),
            NbtError,
        >((node, at)),
        node->List_3.len() < node->List_1 ==> match open_at(data, d, node->List_2, at) {
            Err(e) => finish_at(data, d, node, at, depth) == Err::<(BorrowTree, int), NbtError>(e),
            Ok((child, open, next)) => at <= next <= data.len() && (open ==> is_container(child))
                && (!open ==> at < next) && finish_at(data, d, node, at, depth) == if open {
                match finish_at(data, d, child, next, depth + 1) {
                    Err(e) => Err::<(BorrowTree, int), NbtError>(e),
                    Ok((full, end)) => finish_at(data, d, attach(node, 0, 0, full), end, depth),
                }
            } else {
                finish_at(data, d, attach(node, 0, 0, child), next, depth)
            },
        },
{
    lemma_closed_advances(data, d, node->List_2, at);
    lemma_payload_opens(data, d, node->List_2, at, depth);
    lemma_payload_advances(data, d, node->List_2, at, depth);
}

/// Puts `child` behind the children of `parent`, as a member named by the
/// `name_len` bytes at `name_start` where `parent` is a compound.
fn attach_child(
    parent: BorrowNbtValue,
    name_start: usize,
    name_len: usize,
    child: BorrowNbtValue,
) -> (r: BorrowNbtValue)
    ensures
        r@ == attach(parent@, name_start, name_len, child@),
{
    match parent {
        BorrowNbtValue::Compound(ptr, name, mut members) => {
            let ghost before = member_trees(members);
            members.push((name_start, name_len, child));
            assert(member_trees(members) =~= before.push((name_start, name_len, child@)));
            BorrowNbtValue::Compound(ptr, name, members)
        },
        BorrowNbtValue::List(ptr, count, of, mut items) => {
            let ghost before = item_trees(items);
            items.push(child);
            assert(item_trees(items) =~= before.push(child@));
            BorrowNbtValue::List(ptr, count, of, items)
        },
        other => other,
    }
}

/// What one turn of the reader finds at the innermost open node.
pub enum Turn {
    /// The node is complete.
    Close,
    /// One more child, complete: where its name starts, how long the name
    /// is, and the child.
    Child(usize, usize, BorrowNbtValue),
    /// One more child, a list or compound that is to be read next: where its
    /// name starts, how long the name is, and the child without children.
    Open(usize, usize, BorrowNbtValue),
}

/// Reads on at the open node `node`, which is number `depth` of the open
/// nodes: the end of the node, or the start of its next child.
fn read_turn(reader: &mut NbtReader, d: Dialect, node: &BorrowNbtValue, depth: Ghost<nat>) -> (r:
    Result<Turn, NbtError>)
    requires
        is_container(node@),
        depth@ <= RECURSE_LIMIT,
        old(reader).cursor <= old(reader).data@.len(),
    ensures
        final(reader).data@ == old(reader).data@,
        r is Ok ==> old(reader).cursor <= final(reader).cursor <= old(reader).data@.len(),
        match r {
            Err(e) => finish_at(old(reader).data@, d, node@, old(reader).cursor as int, depth@)
                == Err::<(BorrowTree, int), NbtError>(e),
            Ok(Turn::Close) => finish_at(
                old(reader).data@,
                d,
                node@,
                old(reader).cursor as int,
                depth@,
            ) == Ok::<(BorrowTree, int), NbtError>((node@, final(reader).cursor as int)) && (
            node@ is Compound ==> old(reader).cursor < final(reader).cursor),
            Ok(Turn::Child(name_start, name_len, child)) => old(reader).cursor < final(reader).cursor && finish_at(old(reader).data@, d, node@, old(reader).cursor as int, depth@)
                == finish_at(
                old(reader).data@,
                d,
                attach(node@, name_start, name_len, child@),
                final(reader).cursor as int,
                depth@,
            ),
            Ok(Turn::Open(name_start, name_len, child)) => is_container(child@) && (old(reader).cursor == final(reader).cursor ==> node@ is List && child@ is Compound) && finish_at(
                old(reader).data@,
                d,
                node@,
                old(reader).cursor as int,
                depth@,
            ) == match finish_at(
                old(reader).data@,
                d,
                child@,
                final(reader).cursor as int,
                depth@ + 1,
            ) {
                Err(e) => Err::<(BorrowTree, int), NbtError>(e),
                Ok((full, end)) => finish_at(
                    old(reader).data@,
                    d,
                    attach(node@, name_start, name_len, full),
                    end,
                    depth@,
                ),
            },
        },
{
    let ghost data = reader.data@;
    let ghost at = reader.cursor as int;
    match node {
        BorrowNbtValue::Compound(_, _, _) => {
            proof {
                lemma_member_step(data, d, node@, at, depth@);
            }
            let tag = match reader.read_u8() {
                Err(e) => {
                    return Err(e);
                },
                Ok(tag) => tag,
            };
            if tag == TAG_END {
                return Ok(Turn::Close);
            }
            let len = match read_text_len(reader, d) {
                Err(e) => {
                    return Err(e);
                },
                Ok(len) => len,
            };
            let name_at = reader.cursor;
            match reader.roll_down(len) {
                Err(e) => {
                    return Err(e);
                },
                Ok(_) => {},
            }
            match read_open(reader, d, tag) {
                Err(e) => Err(e),
                Ok((child, open)) => if open {
                    Ok(Turn::Open(name_at, len, child))
                } else {
                    Ok(Turn::Child(name_at, len, child))
                },
            }
        },
        BorrowNbtValue::List(_, count, of, items) => {
            proof {
                lemma_element_step(data, d, node@, at, depth@);
                assert(item_trees(*items).len() == items.len());
            }
            if items.len() >= *count {
                return Ok(Turn::Close);
            }
            match read_open(reader, d, *of) {
                Err(e) => Err(e),
                Ok((child, open)) => if open {
                    Ok(Turn::Open(0, 0, child))
                } else {
                    Ok(Turn::Child(0, 0, child))
                },
            }
        },
        _ => Ok(Turn::Close),
    }
}

/// The second part of the measure by which the reader's loop ends: nothing
/// for a compound that was opened without a byte read, else one more than
/// the number of open nodes.
pub open spec fn phase(fresh: bool, open: nat) -> nat {
    if fresh {
        0
    } else {
        open + 1
    }
}

/// Reads the root's tag and what stands before its first child: the root
/// without children, and whether children are to be read into it.
fn read_root_head(reader: &mut NbtReader, d: Dialect) -> (r: Result<
    (BorrowNbtValue, bool),
    NbtError,
>)
    ensures
        final(reader).data@ == old(reader).data@,
        match r {
            Ok((node, open)) => final(reader).cursor <= old(reader).data@.len() && (open
                ==> is_container(node@)) && root_at(
                old(reader).data@,
                d,
                old(reader).cursor as int,
            ) == if open {
                finish_at(old(reader).data@, d, node@, final(reader).cursor as int, 1)
            } else {
                Ok::<(BorrowTree, int), NbtError>((node@, final(reader).cursor as int))
            },
            Err(e) => root_at(old(reader).data@, d, old(reader).cursor as int) == Err::<
                (BorrowTree, int),
                NbtError,
            >(e),
        },
{
    let ghost data = reader.data@;
    let start = reader.cursor;
    let tag = match reader.read_u8() {
        Err(e) => {
            return Err(e);
        },
        Ok(tag) => tag,
    };
    if tag == TAG_COMPOUND {
        let name = if d.has_root_name() {
            let len = match read_text_len(reader, d) {
                Err(e) => {
                    return Err(e);
                },
                Ok(len) => len,
            };
            match reader.roll_down(len) {
                Err(e) => {
                    return Err(e);
                },
                Ok(_) => {},
            }
            Some(len)
        } else {
            None
        };
        let node = BorrowNbtValue::Compound(start, name, Vec::new());
        assert(node@ == BorrowTree::Compound(start, name, Seq::empty())) by {
            assert(node@->Compound_2 =~= Seq::<(usize, usize, BorrowTree)>::empty());
        }
        Ok((node, true))
    } else if tag == TAG_LIST && d.allows_root_list() {
        proof {
            lemma_payload_opens(data, d, TAG_LIST, start + 1, 0);
            lemma_closed_advances(data, d, TAG_LIST, start + 1);
        }
        read_list_head(reader, d)
    } else {
        Err(NbtError::WrongRootType(tag))
    }
}

/// Reads the tree whose root tag stands at the cursor, in the dialect `d`.
///
/// The lists and compounds that are open stand on a stack, the innermost
/// last; each turn of the loop reads one child into the innermost, opens a
/// child on top of it, or closes it into the one around it. More than
/// `RECURSE_LIMIT` open at once is an error.
pub fn read_borrowed(reader: &mut NbtReader, d: Dialect) -> (r: Result<BorrowNbtValue, NbtError>)
    ensures
        final(reader).data@ == old(reader).data@,
        match r {
            Ok(tree) => root_at(old(reader).data@, d, old(reader).cursor as int) == Ok::<
                (BorrowTree, int),
                NbtError,
            >((tree@, final(reader).cursor as int)) && within(old(reader).data@, d, tree@),
            Err(e) => root_at(old(reader).data@, d, old(reader).cursor as int) == Err::<
                (BorrowTree, int),
                NbtError,
            >(e),
        },
{
    let total = reader.data.len();
    proof {
        if reader.cursor < total {
            lemma_root_within(reader.data@, d, reader.cursor as int);
        }
    }
    read_frames(reader, d)
}

/// The loop of [`read_borrowed`].
fn read_frames(reader: &mut NbtReader, d: Dialect) -> (r: Result<BorrowNbtValue, NbtError>)
    ensures
        final(reader).data@ == old(reader).data@,
        match r {
            Ok(tree) => root_at(old(reader).data@, d, old(reader).cursor as int) == Ok::<
                (BorrowTree, int),
                NbtError,
            >((tree@, final(reader).cursor as int)),
            Err(e) => root_at(old(reader).data@, d, old(reader).cursor as int) == Err::<
                (BorrowTree, int),
                NbtError,
            >(e),
        },
{
    let ghost data = reader.data@;
    let ghost origin = reader.cursor as int;
    let mut stack: Vec<Frame> = Vec::new();
    match read_root_head(reader, d) {
        Err(e) => {
            return Err(e);
        },
        Ok((node, open)) => {
            if !open {
                return Ok(node);
            }
            stack.push(Frame { name_start: 0, name_len: 0, node });
        },
    }
    let ghost mut fresh = false;
    assert(frame_trees(stack).len() == 1);
    assert(frame_trees(stack).last() == (0usize, 0usize, stack[0].node@));
    loop
        invariant
            data == old(reader).data@,
            origin == old(reader).cursor,
            reader.data@ == data,
            reader.cursor <= data.len(),
            stack.len() >= 1,
            forall|i: int| 0 <= i < stack.len() ==> is_container(#[trigger] stack[i].node@),
            fresh ==> stack[stack.len() - 1].node@ is Compound,
            resume(data, d, frame_trees(stack), reader.cursor as int) == root_at(data, d, origin),
        decreases data.len() - reader.cursor, phase(fresh, stack.len() as nat),
    {
        let ghost frames = frame_trees(stack);
        let ghost at = reader.cursor as int;
        if stack.len() > RECURSE_LIMIT {
            return Err(NbtError::NbtDepthTooBig(RECURSE_LIMIT));
        }
        let turn = match read_turn(reader, d, &stack[stack.len() - 1].node, Ghost(stack.len() as nat)) {
            Err(e) => {
                return Err(e);
            },
            Ok(turn) => turn,
        };
        match turn {
            Turn::Open(name_start, name_len, child) => {
                proof {
                    lemma_resume_push(
                        data,
                        d,
                        frames,
                        at,
                        (name_start, name_len, child@),
                        reader.cursor as int,
                    );
                    fresh = (reader.cursor as int == at);
                }
                stack.push(Frame { name_start, name_len, node: child });
                assert(frame_trees(stack) =~= frames.push((name_start, name_len, child@)));
            },
            Turn::Child(name_start, name_len, child) => {
                let top = stack.pop().unwrap();
                let Frame { name_start: top_start, name_len: top_len, node } = top;
                let grown = attach_child(node, name_start, name_len, child);
                proof {
                    lemma_resume_replace(data, d, frames, at, grown@, reader.cursor as int);
                    fresh = false;
                }
                stack.push(Frame { name_start: top_start, name_len: top_len, node: grown });
                assert(frame_trees(stack) =~= replace_top(frames, grown@));
            },
            Turn::Close => {
                proof {
                    lemma_resume_close(data, d, frames, at, reader.cursor as int);
                    fresh = false;
                }
                let top = stack.pop().unwrap();
                let Frame { name_start, name_len, node } = top;
                if stack.len() == 0 {
                    return Ok(node);
                }
                let parent = stack.pop().unwrap();
                let Frame { name_start: parent_start, name_len: parent_len, node: around } = parent;
                let grown = attach_child(around, name_start, name_len, node);
                stack.push(Frame { name_start: parent_start, name_len: parent_len, node: grown });
                assert(frame_trees(stack) =~= close_top(frames, frames.last().2));
            },
        }
    }
}

/// Reads the tree whose root tag stands at the cursor, as the Java edition
/// writes it: with a name on the root compound, or, as on the network since
/// protocol 764, without one.
pub fn java_from_reader(reader: &mut NbtReader, root_with_name: bool) -> (r: Result<
    BorrowNbtValue,
    NbtError,
>)
    ensures
        final(reader).data@ == old(reader).data@,
        match r {
            Ok(tree) => root_at(
                old(reader).data@,
                java_dialect(root_with_name),
                old(reader).cursor as int,
            ) == Ok::<(BorrowTree, int), NbtError>((tree@, final(reader).cursor as int)) && within(
                old(reader).data@,
                java_dialect(root_with_name),
                tree@,
            ),
            Err(e) => root_at(
                old(reader).data@,
                java_dialect(root_with_name),
                old(reader).cursor as int,
            ) == Err::<(BorrowTree, int), NbtError>(e),
        },
{
    if root_with_name {
        read_borrowed(reader, Dialect::Java)
    } else {
        read_borrowed(reader, Dialect::JavaNetAfter1_20_2)
    }
}

/// The dialect of the Java edition with or without a name on the root.
pub open spec fn java_dialect(root_with_name: bool) -> Dialect {
    if root_with_name {
        Dialect::Java
    } else {
        Dialect::JavaNetAfter1_20_2
    }
}

} // verus!
