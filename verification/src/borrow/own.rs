//! From the index-only tree to the decoded tree: every offset is looked up
//! in the buffer once. The open lists and compounds stand on a stack, as in
//! the reader.

use vstd::prelude::*;
use crate::borrow::bounds::{name_at, within};
use crate::borrow::read::read_text_len;
use crate::borrow::{item_trees, member_trees, BorrowNbtValue, BorrowTree};
use crate::mutf8::Mutf8String;
use crate::nbt_version::Dialect;
use crate::reader::{to_i8, NbtReader};
use crate::value::{named_trees, value_trees, NbtValue, ValueTree};
use crate::wire::{
    i32s_at, i64s_at, i8s_at, signed16, signed32, signed64, signed8, u16_at, u32_at, u64_at,
};

verus! {

/// The decoded tree of an index-only tree over the buffer `data`.
pub open spec fn owned(data: Seq<u8>, d: Dialect, tree: BorrowTree) -> ValueTree
    recommends
        within(data, d, tree),
    decreases tree,
{
    let little = d.little_endian();
    match tree {
        BorrowTree::Byte(p) => ValueTree::Byte(signed8(data[p as int] as int) as i8),
        BorrowTree::Short(p) => ValueTree::Short(signed16(u16_at(data, p as int, little)) as i16),
        BorrowTree::Int(p) => ValueTree::Int(signed32(u32_at(data, p as int, little)) as i32),
        BorrowTree::Long(p) => ValueTree::Long(signed64(u64_at(data, p as int, little)) as i64),
        BorrowTree::Float(p) => ValueTree::Float(u32_at(data, p as int, little) as u32),
        BorrowTree::Double(p) => ValueTree::Double(u64_at(data, p as int, little) as u64),
        BorrowTree::ByteArray(p, n) => ValueTree::ByteArray(i8s_at(data, p as int, n as nat)),
        BorrowTree::String(p, n) => ValueTree::String(data.subrange(p as int, p + n)),
        BorrowTree::IntArray(p, n) => ValueTree::IntArray(
            i32s_at(data, p as int, n as nat, little),
        ),
        BorrowTree::LongArray(p, n) => ValueTree::LongArray(
            i64s_at(data, p as int, n as nat, little),
        ),
        BorrowTree::List(_, _, _, items) => ValueTree::List(
            Seq::new(
                items.len(),
                |i: int|
                    if 0 <= i < items.len() {
                        owned(data, d, items[i])
                    } else {
                        ValueTree::Byte(0)
                    },
            ),
        ),
        BorrowTree::Compound(ptr, name, members) => ValueTree::Compound(
            owned_name(data, d, ptr, name),
            Seq::new(
                members.len(),
                |i: int|
                    if 0 <= i < members.len() {
                        (
                            data.subrange(members[i].0 as int, members[i].0 + members[i].1),
                            owned(data, d, members[i].2),
                        )
                    } else {
                        (Seq::empty(), ValueTree::Byte(0))
                    },
            ),
        ),
    }
}

/// The bytes of the name of a compound at `ptr`, where it has one.
pub open spec fn owned_name(data: Seq<u8>, d: Dialect, ptr: usize, name: Option<usize>) -> Option<
    Seq<u8>,
> {
    match name {
        Some(len) => match name_at(data, d, ptr, len) {
            Some(start) => Some(data.subrange(start, start + len)),
            None => Some(Seq::empty()),
        },
        None => None,
    }
}

/// Whether a node can have children.
pub open spec fn has_children(tree: BorrowTree) -> bool {
    tree is List || tree is Compound
}

/// How many children a node has.
pub open spec fn child_count(tree: BorrowTree) -> nat {
    match tree {
        BorrowTree::List(_, _, _, items) => items.len(),
        BorrowTree::Compound(_, _, members) => members.len(),
        _ => 0,
    }
}

/// The child number `k` of a node.
pub open spec fn child_of(tree: BorrowTree, k: int) -> BorrowTree {
    match tree {
        BorrowTree::List(_, _, _, items) => items[k],
        BorrowTree::Compound(_, _, members) => members[k].2,
        _ => tree,
    }
}

/// The bytes of the name of the child number `k` of a node: none in a list.
pub open spec fn child_name(data: Seq<u8>, tree: BorrowTree, k: int) -> Seq<u8> {
    match tree {
        BorrowTree::Compound(_, _, members) => data.subrange(
            members[k].0 as int,
            members[k].0 + members[k].1,
        ),
        _ => Seq::empty(),
    }
}

/// How many children a decoded node has.
pub open spec fn built(node: ValueTree) -> nat {
    match node {
        ValueTree::List(items) => items.len(),
        ValueTree::Compound(_, members) => members.len(),
        _ => 0,
    }
}

/// The decoded node `node` with `child` as one more child, named `name`
/// where the node is a compound.
pub open spec fn grown(node: ValueTree, name: Seq<u8>, child: ValueTree) -> ValueTree {
    match node {
        ValueTree::List(items) => ValueTree::List(items.push(child)),
        ValueTree::Compound(own, members) => ValueTree::Compound(own, members.push((name, child))),
        _ => node,
    }
}

/// Whether `node` is the decoded tree of `tree` as far as its first
/// children go.
pub open spec fn partial(data: Seq<u8>, d: Dialect, tree: BorrowTree, node: ValueTree) -> bool {
    &&& built(node) <= child_count(tree)
    &&& match tree {
        BorrowTree::List(_, _, _, items) => node is List && forall|j: int|
            0 <= j < built(node) ==> #[trigger] node->List_0[j] == owned(data, d, items[j]),
        BorrowTree::Compound(ptr, name, members) => node is Compound && node->Compound_0
            == owned_name(data, d, ptr, name) && forall|j: int|
            0 <= j < built(node) ==> #[trigger] node->Compound_1[j] == (
                child_name(data, tree, j),
                owned(data, d, members[j].2),
            ),
        _ => false,
    }
}

/// A node with all its children is the decoded tree.
pub proof fn lemma_partial_full(data: Seq<u8>, d: Dialect, tree: BorrowTree, node: ValueTree)
    requires
        partial(data, d, tree, node),
        built(node) == child_count(tree),
    ensures
        node == owned(data, d, tree),
{
    match tree {
        BorrowTree::List(_, _, _, items) => {
            assert(node->List_0 =~= owned(data, d, tree)->List_0);
        },
        BorrowTree::Compound(ptr, name, members) => {
            assert(node->Compound_1 =~= owned(data, d, tree)->Compound_1);
        },
        _ => {},
    }
}

/// A node that takes its next child decoded is the decoded tree one child
/// further.
pub proof fn lemma_partial_grows(data: Seq<u8>, d: Dialect, tree: BorrowTree, node: ValueTree)
    requires
        partial(data, d, tree, node),
        built(node) < child_count(tree),
    ensures
        partial(
            data,
            d,
            tree,
            grown(
                node,
                child_name(data, tree, built(node) as int),
                owned(data, d, child_of(tree, built(node) as int)),
            ),
        ),
        built(
            grown(
                node,
                child_name(data, tree, built(node) as int),
                owned(data, d, child_of(tree, built(node) as int)),
            ),
        ) == built(node) + 1,
{
}

/// How many turns of the loop a tree takes as a child: one where it has no
/// children of its own, else one to open it, one to close it, and those of
/// its children.
pub open spec fn cost(tree: BorrowTree) -> nat
    decreases tree, 0nat,
{
    match tree {
        BorrowTree::List(_, _, _, items) => 2 + item_costs(items, 0),
        BorrowTree::Compound(_, _, members) => 2 + member_costs(members, 0),
        _ => 1,
    }
}

/// The turns that the items from number `from` on take.
pub open spec fn item_costs(items: Seq<BorrowTree>, from: nat) -> nat
    decreases items, items.len() - from,
{
    if from >= items.len() {
        0
    } else {
        cost(items[from as int]) + item_costs(items, from + 1)
    }
}

/// The turns that the members from number `from` on take.
pub open spec fn member_costs(members: Seq<(usize, usize, BorrowTree)>, from: nat) -> nat
    decreases members, members.len() - from,
{
    if from >= members.len() {
        0
    } else {
        cost(members[from as int].2) + member_costs(members, from + 1)
    }
}

/// The turns that the children of a node from number `from` on take.
pub open spec fn tail_cost(tree: BorrowTree, from: nat) -> nat {
    match tree {
        BorrowTree::List(_, _, _, items) => item_costs(items, from),
        BorrowTree::Compound(_, _, members) => member_costs(members, from),
        _ => 0,
    }
}

/// An open node as a value of specifications: the tree that is decoded,
/// the bytes of its name in the compound around it, and the decoded node
/// with the children that it has so far.
pub type OwnView = (BorrowTree, Seq<u8>, ValueTree);

/// The turns that are left with the open nodes `frames`, the innermost
/// last. In every node but the innermost, the next child is the node above
/// it, and is counted there.
pub open spec fn pending(frames: Seq<OwnView>, top: bool) -> nat
    decreases frames.len(),
{
    if frames.len() == 0 {
        0
    } else {
        let done = built(frames.last().2);
        1 + tail_cost(
            frames.last().0,
            if top {
                done
            } else {
                done + 1
            },
        ) + pending(frames.drop_last(), false)
    }
}

/// A node costs at least one turn, and the children of a node from one on
/// cost what that one and those behind it cost.
pub proof fn lemma_tail_cost(tree: BorrowTree, from: nat)
    requires
        from < child_count(tree),
    ensures
        tail_cost(tree, from) == cost(child_of(tree, from as int)) + tail_cost(tree, from + 1),
        cost(child_of(tree, from as int)) >= 1,
        has_children(child_of(tree, from as int)) ==> cost(child_of(tree, from as int)) == 2
            + tail_cost(child_of(tree, from as int), 0),
{
}

/// One child decoded is at least one turn less.
pub proof fn lemma_pending_child(frames: Seq<OwnView>, node: ValueTree)
    requires
        frames.len() >= 1,
        built(frames.last().2) < child_count(frames.last().0),
        built(node) == built(frames.last().2) + 1,
    ensures
        pending(frames.drop_last().push((frames.last().0, frames.last().1, node)), true) < pending(
            frames,
            true,
        ),
{
    let tree = frames.last().0;
    let done = built(frames.last().2);
    lemma_tail_cost(tree, done);
    let more = frames.drop_last().push((tree, frames.last().1, node));
    assert(more.drop_last() =~= frames.drop_last());
    assert(more.last() == (tree, frames.last().1, node));
    assert(pending(frames, true) == 1 + tail_cost(tree, done) + pending(
        frames.drop_last(),
        false,
    ));
    assert(pending(more, true) == 1 + tail_cost(tree, done + 1) + pending(
        frames.drop_last(),
        false,
    ));
}

/// One child opened is one turn less.
pub proof fn lemma_pending_open(frames: Seq<OwnView>, child: OwnView)
    requires
        frames.len() >= 1,
        built(frames.last().2) < child_count(frames.last().0),
        child.0 == child_of(frames.last().0, built(frames.last().2) as int),
        has_children(child.0),
        built(child.2) == 0,
    ensures
        pending(frames.push(child), true) < pending(frames, true),
{
    let tree = frames.last().0;
    let done = built(frames.last().2);
    lemma_tail_cost(tree, done);
    let deeper = frames.push(child);
    assert(deeper.drop_last() =~= frames);
    assert(deeper.last() == child);
    assert(pending(frames, false) == 1 + tail_cost(tree, done + 1) + pending(
        frames.drop_last(),
        false,
    ));
    assert(pending(frames, true) == 1 + tail_cost(tree, done) + pending(
        frames.drop_last(),
        false,
    ));
    assert(pending(deeper, true) == 1 + tail_cost(child.0, 0) + pending(frames, false));
}

/// The frames without the innermost, with `node` in place of the node
/// around it.
pub open spec fn closed_into(frames: Seq<OwnView>, node: ValueTree) -> Seq<OwnView> {
    frames.take(frames.len() - 2).push(
        (frames[frames.len() - 2].0, frames[frames.len() - 2].1, node),
    )
}

/// One node closed is one turn less.
pub proof fn lemma_pending_close(frames: Seq<OwnView>, node: ValueTree)
    requires
        frames.len() >= 2,
        built(frames.last().2) >= child_count(frames.last().0),
        built(node) == built(frames[frames.len() - 2].2) + 1,
    ensures
        pending(closed_into(frames, node), true) < pending(frames, true),
{
    let below = frames.drop_last();
    let parent = below.last();
    let closed = closed_into(frames, node);
    assert(closed.drop_last() =~= below.drop_last());
    assert(closed.last() == (parent.0, parent.1, node));
    assert(pending(closed, true) == 1 + tail_cost(parent.0, built(parent.2) + 1) + pending(
        below.drop_last(),
        false,
    ));
    assert(pending(below, false) == 1 + tail_cost(parent.0, built(parent.2) + 1) + pending(
        below.drop_last(),
        false,
    ));
    assert(pending(frames, true) == 1 + tail_cost(frames.last().0, built(frames.last().2))
        + pending(below, false));
}

/// Whether the frame number `i` is sound: the buffer holds its tree, its
/// node is that tree decoded as far as it goes, and the tree is the next
/// child of the frame below, under that child's name.
pub open spec fn frame_ok(data: Seq<u8>, d: Dialect, frames: Seq<OwnView>, i: int) -> bool {
    &&& within(data, d, frames[i].0)
    &&& partial(data, d, frames[i].0, frames[i].2)
    &&& i >= 1 ==> {
        let below = frames[i - 1];
        &&& built(below.2) < child_count(below.0)
        &&& frames[i].0 == child_of(below.0, built(below.2) as int)
        &&& frames[i].1 == child_name(data, below.0, built(below.2) as int)
    }
}

/// Whether the frames are those of decoding `root`: the outermost is
/// `root`, and every frame is sound.
pub open spec fn linked(data: Seq<u8>, d: Dialect, root: BorrowTree, frames: Seq<OwnView>) -> bool {
    &&& frames.len() >= 1
    &&& frames[0].0 == root
    &&& forall|i: int| 0 <= i < frames.len() ==> #[trigger] frame_ok(data, d, frames, i)
}

/// The buffer holds the children of a tree that it holds.
pub proof fn lemma_child_within(data: Seq<u8>, d: Dialect, tree: BorrowTree, k: int)
    requires
        within(data, d, tree),
        0 <= k < child_count(tree),
    ensures
        within(data, d, child_of(tree, k)),
        tree is Compound ==> tree->Compound_2[k].0 + tree->Compound_2[k].1 <= data.len(),
{
    match tree {
        BorrowTree::List(_, _, _, items) => {
            assert(within(data, d, items[k]));
        },
        BorrowTree::Compound(_, _, members) => {
            assert(members[k].0 + members[k].1 <= data.len() && within(data, d, members[k].2));
        },
        _ => {},
    }
}

/// Opening the next child keeps the frames sound.
pub proof fn lemma_linked_open(
    data: Seq<u8>,
    d: Dialect,
    root: BorrowTree,
    frames: Seq<OwnView>,
    child: OwnView,
)
    requires
        linked(data, d, root, frames),
        built(frames.last().2) < child_count(frames.last().0),
        child.0 == child_of(frames.last().0, built(frames.last().2) as int),
        child.1 == child_name(data, frames.last().0, built(frames.last().2) as int),
        partial(data, d, child.0, child.2),
    ensures
        linked(data, d, root, frames.push(child)),
{
    let deeper = frames.push(child);
    assert(frame_ok(data, d, frames, frames.len() - 1));
    lemma_child_within(data, d, frames.last().0, built(frames.last().2) as int);
    assert forall|i: int| 0 <= i < deeper.len() implies #[trigger] frame_ok(data, d, deeper, i) by {
        if i < frames.len() {
            assert(frame_ok(data, d, frames, i));
        }
    }
}

/// Taking the next child, decoded, keeps the frames sound.
pub proof fn lemma_linked_child(
    data: Seq<u8>,
    d: Dialect,
    root: BorrowTree,
    frames: Seq<OwnView>,
    node: ValueTree,
)
    requires
        linked(data, d, root, frames),
        built(frames.last().2) < child_count(frames.last().0),
        node == grown(
            frames.last().2,
            child_name(data, frames.last().0, built(frames.last().2) as int),
            owned(data, d, child_of(frames.last().0, built(frames.last().2) as int)),
        ),
    ensures
        linked(
            data,
            d,
            root,
            frames.drop_last().push((frames.last().0, frames.last().1, node)),
        ),
        built(node) == built(frames.last().2) + 1,
{
    let more = frames.drop_last().push((frames.last().0, frames.last().1, node));
    assert(frame_ok(data, d, frames, frames.len() - 1));
    lemma_partial_grows(data, d, frames.last().0, frames.last().2);
    assert forall|i: int| 0 <= i < more.len() implies #[trigger] frame_ok(data, d, more, i) by {
        assert(frame_ok(data, d, frames, i));
    }
}

/// Closing the innermost node into the one around it keeps the frames
/// sound.
pub proof fn lemma_linked_close(
    data: Seq<u8>,
    d: Dialect,
    root: BorrowTree,
    frames: Seq<OwnView>,
    node: ValueTree,
)
    requires
        linked(data, d, root, frames),
        frames.len() >= 2,
        built(frames.last().2) >= child_count(frames.last().0),
        node == grown(frames[frames.len() - 2].2, frames.last().1, frames.last().2),
    ensures
        linked(data, d, root, closed_into(frames, node)),
        built(node) == built(frames[frames.len() - 2].2) + 1,
{
    let closed = closed_into(frames, node);
    let parent = frames[frames.len() - 2];
    assert(frame_ok(data, d, frames, frames.len() - 1));
    assert(frame_ok(data, d, frames, frames.len() - 2));
    lemma_partial_full(data, d, frames.last().0, frames.last().2);
    lemma_partial_grows(data, d, parent.0, parent.2);
    assert forall|i: int| 0 <= i < closed.len() implies #[trigger] frame_ok(data, d, closed, i) by {
        assert(frame_ok(data, d, frames, i));
    }
}

/// Copies the `len` bytes at `start` out of the buffer.
fn take_text(reader: &mut NbtReader, start: usize, len: usize) -> (r: Mutf8String)
    requires
        start + len <= old(reader).data@.len(),
    ensures
        final(reader).data@ == old(reader).data@,
        r@ == old(reader).data@.subrange(start as int, start + len),
{
    match Mutf8String::from_reader(reader, start, len) {
        Ok(text) => text,
        Err(_) => Mutf8String::from_bytes(Vec::new()),
    }
}

/// Decodes a node without children.
fn own_leaf(src: &BorrowNbtValue, reader: &mut NbtReader, d: Dialect) -> (r: NbtValue)
    requires
        !has_children(src@),
        within(old(reader).data@, d, src@),
    ensures
        final(reader).data@ == old(reader).data@,
        r@ == owned(old(reader).data@, d, src@),
{
    let little = d.is_little_endian();
    match src {
        BorrowNbtValue::Byte(p) => {
            reader.cursor = *p;
            NbtValue::Byte(to_i8(reader.read_u8_unsafe()))
        },
        BorrowNbtValue::Short(p) => {
            reader.cursor = *p;
            if little {
                NbtValue::Short(reader.read_le_i16_unsafe())
            } else {
                NbtValue::Short(reader.read_be_i16_unsafe())
            }
        },
        BorrowNbtValue::Int(p) => {
            reader.cursor = *p;
            if little {
                NbtValue::Int(reader.read_le_i32_unsafe())
            } else {
                NbtValue::Int(reader.read_be_i32_unsafe())
            }
        },
        BorrowNbtValue::Long(p) => {
            reader.cursor = *p;
            if little {
                NbtValue::Long(reader.read_le_i64_unsafe())
            } else {
                NbtValue::Long(reader.read_be_i64_unsafe())
            }
        },
        BorrowNbtValue::Float(p) => {
            reader.cursor = *p;
            if little {
                NbtValue::Float(reader.read_le_f32_unsafe())
            } else {
                NbtValue::Float(reader.read_be_f32_unsafe())
            }
        },
        BorrowNbtValue::Double(p) => {
            reader.cursor = *p;
            if little {
                NbtValue::Double(reader.read_le_f64_unsafe())
            } else {
                NbtValue::Double(reader.read_be_f64_unsafe())
            }
        },
        BorrowNbtValue::ByteArray(p, n) => {
            reader.cursor = *p;
            NbtValue::ByteArray(reader.read_i8_array_unsafe(*n))
        },
        BorrowNbtValue::String(p, n) => NbtValue::String(take_text(reader, *p, *n)),
        BorrowNbtValue::IntArray(p, n) => {
            reader.cursor = *p;
            if little {
                NbtValue::IntArray(reader.read_le_i32_array(*n))
            } else {
                NbtValue::IntArray(reader.read_be_i32_array_unsafe(*n))
            }
        },
        BorrowNbtValue::LongArray(p, n) => {
            reader.cursor = *p;
            if little {
                NbtValue::LongArray(reader.read_le_i64_array(*n))
            } else {
                NbtValue::LongArray(reader.read_be_i64_array_unsafe(*n))
            }
        },
        _ => NbtValue::Byte(0),
    }
}

/// The decoded node of a list or compound, without children yet.
fn own_open(src: &BorrowNbtValue, reader: &mut NbtReader, d: Dialect) -> (r: NbtValue)
    requires
        has_children(src@),
        within(old(reader).data@, d, src@),
    ensures
        final(reader).data@ == old(reader).data@,
        partial(old(reader).data@, d, src@, r@),
        built(r@) == 0,
{
    match src {
        BorrowNbtValue::Compound(ptr, name, _) => {
            let own = match name {
                None => None,
                Some(len) => {
                    // The length of the name stands behind the tag; the name
                    // starts behind the length.
                    let total = reader.data.len();
                    assert(*ptr + 1 <= total);
                    reader.cursor = *ptr + 1;
                    let _declared = read_text_len(reader, d);
                    let start = reader.cursor;
                    Some(take_text(reader, start, *len))
                },
            };
            let node = NbtValue::Compound(own, Vec::new());
            assert(node@->Compound_1 =~= Seq::<(Seq<u8>, ValueTree)>::empty());
            node
        },
        _ => {
            let node = NbtValue::List(Vec::new());
            assert(node@->List_0 =~= Seq::<ValueTree>::empty());
            node
        },
    }
}

/// Puts `child` behind the children of `parent`, under the name `name`
/// where `parent` is a compound.
fn attach_value(parent: NbtValue, name: Mutf8String, child: NbtValue) -> (r: NbtValue)
    ensures
        r@ == grown(parent@, name@, child@),
{
    match parent {
        NbtValue::Compound(own, mut members) => {
            let ghost before = named_trees(members);
            members.push((name, child));
            assert(named_trees(members) =~= before.push((name@, child@)));
            NbtValue::Compound(own, members)
        },
        NbtValue::List(mut items) => {
            let ghost before = value_trees(items);
            items.push(child);
            assert(value_trees(items) =~= before.push(child@));
            NbtValue::List(items)
        },
        other => other,
    }
}

/// A list or compound that is being decoded: the tree, the name that it
/// has in the compound around it, and the decoded node so far.
pub struct OwnFrame<'a> {
    /// The tree.
    pub src: &'a BorrowNbtValue,
    /// The name, empty inside a list and at the root.
    pub name: Mutf8String,
    /// The decoded node with the children that it has so far.
    pub node: NbtValue,
}

/// The frames of a stack, the outermost first.
pub open spec fn own_views(stack: Vec<OwnFrame>) -> Seq<OwnView> {
    Seq::new(stack.len() as nat, |i: int| (stack[i].src@, stack[i].name@, stack[i].node@))
}

/// What one turn of the decoder finds at the innermost frame.
pub enum OwnTurn<'a> {
    /// All children are decoded.
    Close,
    /// The next child, decoded, and its name.
    Child(Mutf8String, NbtValue),
    /// The next child, a list or compound that is to be decoded next.
    Open(OwnFrame<'a>),
}

/// How many children a decoded node has.
fn built_len(node: &NbtValue) -> (r: usize)
    ensures
        r == built(node@),
{
    match node {
        NbtValue::List(items) => {
            assert(value_trees(*items).len() == items.len());
            items.len()
        },
        NbtValue::Compound(_, members) => {
            assert(named_trees(*members).len() == members.len());
            members.len()
        },
        _ => 0,
    }
}

/// Decodes on at a frame with the tree `src` of which `done` children are
/// decoded: the next child, or the end.
fn own_turn<'a>(src: &'a BorrowNbtValue, done: usize, reader: &mut NbtReader, d: Dialect) -> (r:
    OwnTurn<'a>)
    requires
        has_children(src@),
        within(old(reader).data@, d, src@),
        done <= child_count(src@),
    ensures
        final(reader).data@ == old(reader).data@,
        match r {
            OwnTurn::Close => done == child_count(src@),
            OwnTurn::Child(name, child) => done < child_count(src@) && name@ == child_name(
                old(reader).data@,
                src@,
                done as int,
            ) && child@ == owned(old(reader).data@, d, child_of(src@, done as int)),
            OwnTurn::Open(frame) => done < child_count(src@) && frame.src@ == child_of(
                src@,
                done as int,
            ) && has_children(frame.src@) && frame.name@ == child_name(
                old(reader).data@,
                src@,
                done as int,
            ) && partial(old(reader).data@, d, frame.src@, frame.node@) && built(frame.node@)
                == 0,
        },
{
    let ghost data = reader.data@;
    match src {
        BorrowNbtValue::Compound(_, _, members) => {
            assert(member_trees(*members).len() == members.len());
            if done >= members.len() {
                return OwnTurn::Close;
            }
            proof {
                lemma_child_within(data, d, src@, done as int);
                assert(member_trees(*members)[done as int] == (
                    members[done as int].0,
                    members[done as int].1,
                    members[done as int].2@,
                ));
            }
            let member = &members[done];
            let name = take_text(reader, member.0, member.1);
            own_child(&member.2, name, reader, d)
        },
        BorrowNbtValue::List(_, _, _, items) => {
            assert(item_trees(*items).len() == items.len());
            if done >= items.len() {
                return OwnTurn::Close;
            }
            proof {
                lemma_child_within(data, d, src@, done as int);
                assert(item_trees(*items)[done as int] == items[done as int]@);
            }
            own_child(&items[done], Mutf8String::from_bytes(Vec::new()), reader, d)
        },
        _ => OwnTurn::Close,
    }
}

/// Decodes the child `child`, or opens it where it has children.
fn own_child<'a>(
    child: &'a BorrowNbtValue,
    name: Mutf8String,
    reader: &mut NbtReader,
    d: Dialect,
) -> (r: OwnTurn<'a>)
    requires
        within(old(reader).data@, d, child@),
    ensures
        final(reader).data@ == old(reader).data@,
        match r {
            OwnTurn::Close => false,
            OwnTurn::Child(given, node) => given@ == name@ && node@ == owned(
                old(reader).data@,
                d,
                child@,
            ),
            OwnTurn::Open(frame) => frame.src@ == child@ && has_children(child@) && frame.name@
                == name@ && partial(old(reader).data@, d, child@, frame.node@) && built(
                frame.node@,
            ) == 0,
        },
{
    match child {
        BorrowNbtValue::Compound(_, _, _) | BorrowNbtValue::List(_, _, _, _) => {
            let node = own_open(child, reader, d);
            OwnTurn::Open(OwnFrame { src: child, name, node })
        },
        _ => {
            let node = own_leaf(child, reader, d);
            OwnTurn::Child(name, node)
        },
    }
}

/// Decodes the tree `value` over the reader's buffer, in the dialect `d`.
///
/// The buffer must hold every span that the tree speaks of, as it does
/// where the tree was read from it. The lists and compounds that are open
/// stand on a stack; each turn of the loop decodes one child of the
/// innermost, opens a child on top of it, or closes it into the one around
/// it.
pub fn own_value_with(value: &BorrowNbtValue, reader: &mut NbtReader, d: Dialect) -> (r: NbtValue)
    requires
        within(old(reader).data@, d, value@),
    ensures
        final(reader).data@ == old(reader).data@,
        r@ == owned(old(reader).data@, d, value@),
{
    let ghost data = reader.data@;
    let mut stack: Vec<OwnFrame> = Vec::new();
    match own_child(value, Mutf8String::from_bytes(Vec::new()), reader, d) {
        OwnTurn::Open(frame) => {
            stack.push(frame);
        },
        OwnTurn::Child(_, node) => {
            return node;
        },
        OwnTurn::Close => {
            return NbtValue::Byte(0);
        },
    }
    assert(own_views(stack).len() == 1);
    assert(frame_ok(data, d, own_views(stack), 0));
    loop
        invariant
            data == old(reader).data@,
            reader.data@ == data,
            stack.len() >= 1,
            linked(data, d, value@, own_views(stack)),
            forall|i: int| 0 <= i < stack.len() ==> has_children(#[trigger] stack[i].src@),
        decreases pending(own_views(stack), true),
    {
        let ghost frames = own_views(stack);
        assert(frame_ok(data, d, frames, frames.len() - 1));
        let top = &stack[stack.len() - 1];
        let done = built_len(&top.node);
        let turn = own_turn(top.src, done, reader, d);
        match turn {
            OwnTurn::Open(frame) => {
                let ghost view = (frame.src@, frame.name@, frame.node@);
                proof {
                    lemma_linked_open(data, d, value@, frames, view);
                    lemma_pending_open(frames, view);
                }
                stack.push(frame);
                assert(own_views(stack) =~= frames.push(view));
            },
            OwnTurn::Child(name, child) => {
                let top = stack.pop().unwrap();
                let OwnFrame { src, name: own, node } = top;
                let more = attach_value(node, name, child);
                proof {
                    lemma_linked_child(data, d, value@, frames, more@);
                    lemma_pending_child(frames, more@);
                }
                stack.push(OwnFrame { src, name: own, node: more });
                assert(own_views(stack) =~= frames.drop_last().push(
                    (frames.last().0, frames.last().1, more@),
                ));
            },
            OwnTurn::Close => {
                let top = stack.pop().unwrap();
                let OwnFrame { src, name, node } = top;
                if stack.len() == 0 {
                    proof {
                        lemma_partial_full(data, d, frames.last().0, frames.last().2);
                    }
                    return node;
                }
                let parent = stack.pop().unwrap();
                let OwnFrame { src: around, name: around_name, node: around_node } = parent;
                let more = attach_value(around_node, name, node);
                proof {
                    lemma_linked_close(data, d, value@, frames, more@);
                    lemma_pending_close(frames, more@);
                }
                stack.push(OwnFrame { src: around, name: around_name, node: more });
                assert(own_views(stack) =~= closed_into(frames, more@));
            },
        }
    }
}

/// Decodes the tree `value` over the reader's buffer, as the Java edition
/// writes it.
pub fn own_value(value: &BorrowNbtValue, reader: &mut NbtReader) -> (r: NbtValue)
    requires
        within(old(reader).data@, Dialect::Java, value@),
    ensures
        final(reader).data@ == old(reader).data@,
        r@ == owned(old(reader).data@, Dialect::Java, value@),
{
    own_value_with(value, reader, Dialect::Java)
}

/// Whether `count` elements of `width` bytes each stand at `at` in a
/// buffer of `total` bytes.
fn span_fits(at: usize, count: usize, width: usize, total: usize) -> (r: bool)
    ensures
        r == (at + count * width <= total),
{
    match count.checked_mul(width) {
        Some(span) => span <= total && at <= total - span,
        None => false,
    }
}

/// Whether `count` bytes stand at `at` in a buffer of `total` bytes.
fn bytes_fit(at: usize, count: usize, total: usize) -> (r: bool)
    ensures
        r == (at + count <= total),
{
    count <= total && at <= total - count
}

/// Whether the buffer holds the name of `len` bytes of a compound at `ptr`.
fn name_fits(data: &[u8], d: Dialect, ptr: usize, len: usize) -> (r: bool)
    ensures
        r == (name_at(data@, d, ptr, len) is Some),
{
    if ptr >= data.len() {
        return false;
    }
    let mut reader = NbtReader::new(data);
    reader.cursor = ptr + 1;
    match read_text_len(&mut reader, d) {
        Ok(_) => reader.cursor <= data.len() && len <= data.len() - reader.cursor,
        Err(_) => false,
    }
}

/// Whether the buffer holds every span that the tree speaks of: what
/// [`own_value_with`] asks of its caller.
pub fn fits_buffer(value: &BorrowNbtValue, data: &[u8], d: Dialect) -> (r: bool)
    ensures
        r == within(data@, d, value@),
    decreases value,
{
    let total = data.len();
    match value {
        BorrowNbtValue::Byte(p) => span_fits(*p, 1, 1, total),
        BorrowNbtValue::Short(p) => span_fits(*p, 1, 2, total),
        BorrowNbtValue::Int(p) => span_fits(*p, 1, 4, total),
        BorrowNbtValue::Long(p) => span_fits(*p, 1, 8, total),
        BorrowNbtValue::Float(p) => span_fits(*p, 1, 4, total),
        BorrowNbtValue::Double(p) => span_fits(*p, 1, 8, total),
        BorrowNbtValue::ByteArray(p, n) => bytes_fit(*p, *n, total),
        BorrowNbtValue::String(p, n) => bytes_fit(*p, *n, total),
        BorrowNbtValue::IntArray(p, n) => span_fits(*p, *n, 4, total),
        BorrowNbtValue::LongArray(p, n) => span_fits(*p, *n, 8, total),
        BorrowNbtValue::List(_, _, _, items) => {
            let ghost trees = item_trees(*items);
            let mut i: usize = 0;
            while i < items.len()
                invariant
                    i <= items.len(),
                    value is List,
                    value->List_3 == *items,
                    trees == item_trees(*items),
                    value@->List_3 == trees,
                    forall|k: int| 0 <= k < i ==> within(data@, d, #[trigger] trees[k]),
                decreases items.len() - i,
            {
                proof {
                    vstd::std_specs::vec::axiom_vec_index_decreases(*items, i as int);
                    assert(decreases_to!(*value => value->List_3));
                    assert(trees[i as int] == items[i as int]@);
                }
                if !fits_buffer(&items[i], data, d) {
                    assert(!within(data@, d, value@)) by {
                        if within(data@, d, value@) {
                            assert(within(data@, d, value@->List_3[i as int]));
                        }
                    }
                    return false;
                }
                i += 1;
            }
            true
        },
        BorrowNbtValue::Compound(ptr, name, members) => {
            let named = match name {
                Some(len) => name_fits(data, d, *ptr, *len),
                None => true,
            };
            if !named {
                return false;
            }
            let ghost trees = member_trees(*members);
            let mut i: usize = 0;
            while i < members.len()
                invariant
                    i <= members.len(),
                    value is Compound,
                    value->Compound_2 == *members,
                    trees == member_trees(*members),
                    value@->Compound_2 == trees,
                    total == data@.len(),
                    forall|k: int|
                        0 <= k < i ==> (#[trigger] trees[k]).0 + trees[k].1 <= data@.len()
                            && within(data@, d, trees[k].2),
                decreases members.len() - i,
            {
                proof {
                    vstd::std_specs::vec::axiom_vec_index_decreases(*members, i as int);
                    assert(decreases_to!(*value => value->Compound_2));
                    assert(decreases_to!(members[i as int] => members[i as int].2));
                    assert(trees[i as int] == (
                        members[i as int].0,
                        members[i as int].1,
                        members[i as int].2@,
                    ));
                }
                let fits = bytes_fit(members[i].0, members[i].1, total) && fits_buffer(
                    &members[i].2,
                    data,
                    d,
                );
                if !fits {
                    assert(!within(data@, d, value@)) by {
                        if within(data@, d, value@) {
                            assert(value@->Compound_2[i as int].0 + value@->Compound_2[i as int].1
                                <= data@.len() && within(
                                data@,
                                d,
                                value@->Compound_2[i as int].2,
                            ));
                        }
                    }
                    return false;
                }
                i += 1;
            }
            true
        },
    }
}

/// Decodes the tree `value` over the reader's buffer, in the dialect `d`,
/// where the buffer holds every span that the tree speaks of, and nothing
/// where it does not.
pub fn try_own_value(value: &BorrowNbtValue, reader: &mut NbtReader, d: Dialect) -> (r: Option<
    NbtValue,
>)
    ensures
        final(reader).data@ == old(reader).data@,
        match r {
            Some(tree) => within(old(reader).data@, d, value@) && tree@ == owned(
                old(reader).data@,
                d,
                value@,
            ),
            None => !within(old(reader).data@, d, value@),
        },
{
    if fits_buffer(value, reader.data, d) {
        Some(own_value_with(value, reader, d))
    } else {
        None
    }
}

} // verus!
