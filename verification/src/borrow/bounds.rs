//! Whether a buffer holds what a tree speaks of. It does where the tree was
//! read from it.

use vstd::prelude::*;
use crate::borrow::layout::{
    advanced, elements_at, lemma_closed_advances, member_head_at, members_at, open_at,
    payload_at, root_at, skip_at, text_len_at,
};
use crate::borrow::BorrowTree;
use crate::nbt_version::Dialect;
use crate::RECURSE_LIMIT;

verus! {

/// Where the name of a compound at `ptr` starts, and whether the buffer
/// holds the `len` bytes of it.
pub open spec fn name_at(data: Seq<u8>, d: Dialect, ptr: usize, len: usize) -> Option<int> {
    match text_len_at(data, d, ptr + 1) {
        Ok((_, start)) => if start + len <= data.len() {
            Some(start)
        } else {
            None
        },
        Err(_) => None,
    }
}

/// Whether the buffer holds every span that the tree speaks of.
pub open spec fn within(data: Seq<u8>, d: Dialect, tree: BorrowTree) -> bool
    decreases tree,
{
    match tree {
        BorrowTree::Byte(p) => p + 1 <= data.len(),
        BorrowTree::Short(p) => p + 2 <= data.len(),
        BorrowTree::Int(p) => p + 4 <= data.len(),
        BorrowTree::Long(p) => p + 8 <= data.len(),
        BorrowTree::Float(p) => p + 4 <= data.len(),
        BorrowTree::Double(p) => p + 8 <= data.len(),
        BorrowTree::ByteArray(p, n) => p + n <= data.len(),
        BorrowTree::String(p, n) => p + n <= data.len(),
        BorrowTree::IntArray(p, n) => p + n * 4 <= data.len(),
        BorrowTree::LongArray(p, n) => p + n * 8 <= data.len(),
        BorrowTree::List(_, _, _, items) => forall|i: int|
            0 <= i < items.len() ==> within(data, d, #[trigger] items[i]),
        BorrowTree::Compound(ptr, name, members) => (match name {
            Some(len) => name_at(data, d, ptr, len) is Some,
            None => true,
        }) && forall|i: int|
            0 <= i < members.len() ==> (#[trigger] members[i]).0 + members[i].1 <= data.len()
                && within(data, d, members[i].2),
    }
}

/// Whether the buffer holds the names and the values of all of `members`.
pub open spec fn members_within(
    data: Seq<u8>,
    d: Dialect,
    members: Seq<(usize, usize, BorrowTree)>,
) -> bool {
    forall|i: int|
        0 <= i < members.len() ==> (#[trigger] members[i]).0 + members[i].1 <= data.len()
            && within(data, d, members[i].2)
}

/// Whether the buffer holds all of `items`.
pub open spec fn items_within(data: Seq<u8>, d: Dialect, items: Seq<BorrowTree>) -> bool {
    forall|i: int| 0 <= i < items.len() ==> within(data, d, #[trigger] items[i])
}

/// The buffer holds what a payload that was read from it speaks of.
#[verifier::rlimit(20)]
pub proof fn lemma_payload_within(data: Seq<u8>, d: Dialect, tag: u8, at: int, depth: nat)
    requires
        0 <= at <= data.len(),
    ensures
        payload_at(data, d, tag, at, depth) is Ok ==> within(
            data,
            d,
            payload_at(data, d, tag, at, depth)->Ok_0.0,
        ),
    decreases data.len() - at, 1nat,
{
    lemma_closed_advances(data, d, tag, at);
    match open_at(data, d, tag, at) {
        Ok((BorrowTree::Compound(ptr, name, _), true, start)) => {
            lemma_members_within(data, d, start, Seq::empty(), depth + 1);
        },
        Ok((BorrowTree::List(ptr, count, of, _), true, start)) => {
            if at < start <= data.len() {
                lemma_elements_within(data, d, of, start, count as nat, Seq::empty(), depth + 1);
            }
        },
        _ => {},
    }
}

/// The buffer holds what the members that were read from it speak of.
pub proof fn lemma_members_within(
    data: Seq<u8>,
    d: Dialect,
    at: int,
    acc: Seq<(usize, usize, BorrowTree)>,
    depth: nat,
)
    requires
        0 <= at <= data.len(),
        members_within(data, d, acc),
    ensures
        members_at(data, d, at, acc, depth) is Ok ==> members_within(
            data,
            d,
            members_at(data, d, at, acc, depth)->Ok_0.0,
        ),
    decreases data.len() - at, 0nat,
{
    if depth <= RECURSE_LIMIT {
        match member_head_at(data, d, at) {
            Ok(Some((tag, name_start, name_len, start))) => {
                if at < start <= data.len() {
                    lemma_payload_within(data, d, tag, start, depth);
                    match payload_at(data, d, tag, start, depth) {
                        Ok((child, end)) => {
                            if advanced(data, at, end) {
                                let more = acc.push((name_start, name_len, child));
                                assert(members_within(data, d, more)) by {
                                    assert forall|i: int| 0 <= i < more.len() implies (
                                    #[trigger] more[i]).0 + more[i].1 <= data.len() && within(
                                        data,
                                        d,
                                        more[i].2,
                                    ) by {
                                        if i < acc.len() {
                                            assert(more[i] == acc[i]);
                                        }
                                    }
                                }
                                lemma_members_within(data, d, end, more, depth);
                            }
                        },
                        Err(_) => {},
                    }
                }
            },
            _ => {},
        }
    }
}

/// The buffer holds what the elements that were read from it speak of.
pub proof fn lemma_elements_within(
    data: Seq<u8>,
    d: Dialect,
    tag: u8,
    at: int,
    count: nat,
    acc: Seq<BorrowTree>,
    depth: nat,
)
    requires
        0 <= at <= data.len(),
        items_within(data, d, acc),
    ensures
        elements_at(data, d, tag, at, count, acc, depth) is Ok ==> items_within(
            data,
            d,
            elements_at(data, d, tag, at, count, acc, depth)->Ok_0.0,
        ),
    decreases data.len() - at, 2nat,
{
    if depth <= RECURSE_LIMIT && acc.len() < count {
        lemma_payload_within(data, d, tag, at, depth);
        match payload_at(data, d, tag, at, depth) {
            Ok((child, end)) => {
                if advanced(data, at, end) {
                    let more = acc.push(child);
                    assert(items_within(data, d, more)) by {
                        assert forall|i: int| 0 <= i < more.len() implies within(
                            data,
                            d,
                            #[trigger] more[i],
                        ) by {
                            if i < acc.len() {
                                assert(more[i] == acc[i]);
                            }
                        }
                    }
                    lemma_elements_within(data, d, tag, end, count, more, depth);
                }
            },
            Err(_) => {},
        }
    }
}

/// The buffer holds what a tree that was read from it speaks of.
pub proof fn lemma_root_within(data: Seq<u8>, d: Dialect, at: int)
    requires
        0 <= at,
        at + 1 <= usize::MAX,
    ensures
        root_at(data, d, at) is Ok ==> within(data, d, root_at(data, d, at)->Ok_0.0),
{
    if at + 1 <= data.len() {
        lemma_payload_within(data, d, crate::nbt_consts::TAG_LIST, at + 1, 0);
        match text_len_at(data, d, at + 1) {
            Ok((len, start)) => {
                match skip_at(data, start, len as int) {
                    Ok(first) => {
                        lemma_members_within(data, d, first, Seq::empty(), 1);
                    },
                    Err(_) => {},
                }
            },
            Err(_) => {},
        }
        lemma_members_within(data, d, at + 1, Seq::empty(), 1);
    }
}

} // verus!
