//! What holds of every buffer: a tree that was read does not depend on what
//! follows it, a buffer cut short is never read as a tree, no tree that was
//! read nests deeper than the limit, and the two byte orders decode to the
//! same numbers.

use vstd::prelude::*;
use crate::borrow::layout::{
    count_at, elements_at, member_head_at, members_at, open_at, payload_at, root_at, text_len_at,
};
use crate::borrow::own::owned;
use crate::borrow::BorrowTree;
use crate::nbt_consts::{TAG_END, TAG_LIST};
use crate::nbt_version::Dialect;
use crate::wire::{var_ended, var_groups, var_i32_at, var_span};
use crate::RECURSE_LIMIT;

verus! {

/// Whether `long` starts with the bytes of `short`.
pub open spec fn starts_with(long: Seq<u8>, short: Seq<u8>) -> bool {
    &&& short.len() <= long.len()
    &&& forall|i: int| 0 <= i < short.len() ==> #[trigger] short[i] == long[i]
}

/// The groups of a variable-length integer are those of its bytes alone.
pub proof fn lemma_prefix_var_groups(long: Seq<u8>, short: Seq<u8>, at: int, n: nat)
    requires
        starts_with(long, short),
        0 <= at,
        at + n <= short.len(),
    ensures
        var_groups(long, at, n) == var_groups(short, at, n),
    decreases n,
{
    if n > 0 {
        lemma_prefix_var_groups(long, short, at, (n - 1) as nat);
        assert(short[at + n - 1] == long[at + n - 1]);
    }
}

/// A variable-length integer that ends within a buffer is as long in every
/// buffer that starts with that one.
pub proof fn lemma_prefix_var_span(long: Seq<u8>, short: Seq<u8>, at: int, cap: nat)
    requires
        starts_with(long, short),
        0 <= at,
        var_ended(short, at, var_span(short, at, cap)),
    ensures
        var_span(long, at, cap) == var_span(short, at, cap),
    decreases cap,
{
    if cap > 0 && at < short.len() {
        assert(short[at] == long[at]);
        if short[at] >= 128 {
            let rest = var_span(short, at + 1, (cap - 1) as nat);
            assert(var_ended(short, at + 1, rest)) by {
                if rest == 0 {
                    assert(short[at + 1 - 1] >= 128);
                }
            }
            lemma_prefix_var_span(long, short, at + 1, (cap - 1) as nat);
        }
    }
}

/// A variable-length integer that was read from a buffer is read alike from
/// every buffer that starts with that one.
pub proof fn lemma_prefix_var_i32(long: Seq<u8>, short: Seq<u8>, at: int)
    requires
        starts_with(long, short),
        0 <= at,
        var_i32_at(short, at) is Ok,
    ensures
        var_i32_at(long, at) == var_i32_at(short, at),
{
    let n = var_span(short, at, 5);
    lemma_prefix_var_span(long, short, at, 5);
    lemma_prefix_var_groups(long, short, at, n);
    assert(short[at + n - 1] == long[at + n - 1]);
}

/// A count that was read from a buffer is read alike from every buffer that
/// starts with that one.
pub proof fn lemma_prefix_count(long: Seq<u8>, short: Seq<u8>, d: Dialect, at: int, tag: u8)
    requires
        starts_with(long, short),
        0 <= at,
        count_at(short, d, at, tag) is Ok,
    ensures
        count_at(long, d, at, tag) == count_at(short, d, at, tag),
{
    if d.var_len() {
        lemma_prefix_var_i32(long, short, at);
    } else {
        assert(short[at] == long[at]);
        assert(short[at + 1] == long[at + 1]);
        assert(short[at + 2] == long[at + 2]);
        assert(short[at + 3] == long[at + 3]);
    }
}

/// The length of a text that was read from a buffer is read alike from
/// every buffer that starts with that one.
pub proof fn lemma_prefix_text_len(long: Seq<u8>, short: Seq<u8>, d: Dialect, at: int)
    requires
        starts_with(long, short),
        0 <= at,
        text_len_at(short, d, at) is Ok,
    ensures
        text_len_at(long, d, at) == text_len_at(short, d, at),
{
    if d.var_len() {
        lemma_prefix_var_i32(long, short, at);
    } else {
        assert(short[at] == long[at]);
        assert(short[at + 1] == long[at + 1]);
    }
}

/// The start of a payload that was read from a buffer is read alike from
/// every buffer that starts with that one.
pub proof fn lemma_prefix_open(long: Seq<u8>, short: Seq<u8>, d: Dialect, tag: u8, at: int)
    requires
        starts_with(long, short),
        0 <= at,
        open_at(short, d, tag, at) is Ok,
    ensures
        open_at(long, d, tag, at) == open_at(short, d, tag, at),
{
    if count_at(short, d, at, tag) is Ok {
        lemma_prefix_count(long, short, d, at, tag);
    }
    if text_len_at(short, d, at) is Ok {
        lemma_prefix_text_len(long, short, d, at);
    }
    if tag == TAG_LIST && at + 1 <= short.len() {
        assert(short[at] == long[at]);
        if count_at(short, d, at + 1, short[at]) is Ok {
            lemma_prefix_count(long, short, d, at + 1, short[at]);
        }
    }
}

/// The head of a member that was read from a buffer is read alike from
/// every buffer that starts with that one.
pub proof fn lemma_prefix_member_head(long: Seq<u8>, short: Seq<u8>, d: Dialect, at: int)
    requires
        starts_with(long, short),
        0 <= at,
        member_head_at(short, d, at) is Ok,
    ensures
        member_head_at(long, d, at) == member_head_at(short, d, at),
{
    assert(short[at] == long[at]);
    if text_len_at(short, d, at + 1) is Ok {
        lemma_prefix_text_len(long, short, d, at + 1);
    }
}

/// A payload that was read from a buffer is read alike from every buffer
/// that starts with that one.
pub proof fn lemma_prefix_payload(
    long: Seq<u8>,
    short: Seq<u8>,
    d: Dialect,
    tag: u8,
    at: int,
    depth: nat,
)
    requires
        starts_with(long, short),
        0 <= at,
        payload_at(short, d, tag, at, depth) is Ok,
    ensures
        payload_at(long, d, tag, at, depth) == payload_at(short, d, tag, at, depth),
    decreases short.len() - at, 1nat,
{
    lemma_prefix_open(long, short, d, tag, at);
    match open_at(short, d, tag, at) {
        Ok((BorrowTree::Compound(ptr, name, _), true, start)) => {
            lemma_prefix_members(long, short, d, start, Seq::empty(), depth + 1);
        },
        Ok((BorrowTree::List(ptr, count, of, _), true, start)) => {
            lemma_prefix_elements(long, short, d, of, start, count as nat, Seq::empty(), depth + 1);
        },
        _ => {},
    }
}

/// Members that were read from a buffer are read alike from every buffer
/// that starts with that one.
pub proof fn lemma_prefix_members(
    long: Seq<u8>,
    short: Seq<u8>,
    d: Dialect,
    at: int,
    acc: Seq<(usize, usize, BorrowTree)>,
    depth: nat,
)
    requires
        starts_with(long, short),
        0 <= at,
        members_at(short, d, at, acc, depth) is Ok,
    ensures
        members_at(long, d, at, acc, depth) == members_at(short, d, at, acc, depth),
    decreases short.len() - at, 0nat,
{
    lemma_prefix_member_head(long, short, d, at);
    match member_head_at(short, d, at) {
        Ok(Some((tag, name_start, name_len, start))) => {
            lemma_prefix_payload(long, short, d, tag, start, depth);
            match payload_at(short, d, tag, start, depth) {
                Ok((child, end)) => {
                    lemma_prefix_members(
                        long,
                        short,
                        d,
                        end,
                        acc.push((name_start, name_len, child)),
                        depth,
                    );
                },
                Err(_) => {},
            }
        },
        _ => {},
    }
}

/// Elements that were read from a buffer are read alike from every buffer
/// that starts with that one.
pub proof fn lemma_prefix_elements(
    long: Seq<u8>,
    short: Seq<u8>,
    d: Dialect,
    tag: u8,
    at: int,
    count: nat,
    acc: Seq<BorrowTree>,
    depth: nat,
)
    requires
        starts_with(long, short),
        0 <= at,
        elements_at(short, d, tag, at, count, acc, depth) is Ok,
    ensures
        elements_at(long, d, tag, at, count, acc, depth) == elements_at(
            short,
            d,
            tag,
            at,
            count,
            acc,
            depth,
        ),
    decreases short.len() - at, 2nat,
{
    if acc.len() < count {
        lemma_prefix_payload(long, short, d, tag, at, depth);
        match payload_at(short, d, tag, at, depth) {
            Ok((child, end)) => {
                lemma_prefix_elements(long, short, d, tag, end, count, acc.push(child), depth);
            },
            Err(_) => {},
        }
    }
}

/// What follows a tree in the buffer does not matter: a tree that was read
/// from a buffer is read, with the same offsets and the same end, from every
/// buffer that starts with that one.
pub proof fn lemma_read_ignores_what_follows(long: Seq<u8>, short: Seq<u8>, d: Dialect, at: int)
    requires
        starts_with(long, short),
        0 <= at,
        root_at(short, d, at) is Ok,
    ensures
        root_at(long, d, at) == root_at(short, d, at),
{
    assert(short[at] == long[at]);
    if text_len_at(short, d, at + 1) is Ok {
        lemma_prefix_text_len(long, short, d, at + 1);
        let start = text_len_at(short, d, at + 1)->Ok_0.1;
        let len = text_len_at(short, d, at + 1)->Ok_0.0;
        if start + len <= short.len() && members_at(short, d, start + len, Seq::empty(), 1) is Ok {
            lemma_prefix_members(long, short, d, start + len, Seq::empty(), 1);
        }
    }
    if members_at(short, d, at + 1, Seq::empty(), 1) is Ok {
        lemma_prefix_members(long, short, d, at + 1, Seq::empty(), 1);
    }
    if payload_at(short, d, TAG_LIST, at + 1, 0) is Ok {
        lemma_prefix_payload(long, short, d, TAG_LIST, at + 1, 0);
    }
}

/// A tree ends within the buffer that it was read from.
pub proof fn lemma_root_ends_within(data: Seq<u8>, d: Dialect, at: int)
    requires
        0 <= at,
    ensures
        root_at(data, d, at) is Ok ==> at < root_at(data, d, at)->Ok_0.1 <= data.len(),
{
    if at + 1 <= data.len() {
        crate::borrow::layout::lemma_payload_advances(data, d, TAG_LIST, at + 1, 0);
        crate::borrow::layout::lemma_members_advance(data, d, at + 1, Seq::empty(), 1);
        match text_len_at(data, d, at + 1) {
            Ok((len, start)) => {
                crate::borrow::layout::lemma_members_advance(data, d, start + len, Seq::empty(), 1);
            },
            Err(_) => {},
        }
    }
}

/// Bounds safety: where a buffer holds one tree and nothing behind it,
/// reading any shorter start of that buffer is an error.
pub proof fn lemma_truncation_is_an_error(data: Seq<u8>, d: Dialect, keep: int)
    requires
        root_at(data, d, 0) is Ok,
        root_at(data, d, 0)->Ok_0.1 == data.len(),
        0 <= keep < data.len(),
    ensures
        root_at(data.take(keep), d, 0) is Err,
{
    let short = data.take(keep);
    if root_at(short, d, 0) is Ok {
        lemma_read_ignores_what_follows(data, short, d, 0);
        lemma_root_ends_within(short, d, 0);
    }
}

/// Whether a tree can be read with `room` lists and compounds open at
/// once: a compound takes one, and so does a list but one of elements
/// tagged `TAG_END`, which has no children.
pub open spec fn nests_within(tree: BorrowTree, room: nat) -> bool
    decreases tree,
{
    match tree {
        BorrowTree::Compound(_, _, members) => room >= 1 && forall|i: int|
            0 <= i < members.len() ==> nests_within((#[trigger] members[i]).2, (room - 1) as nat),
        BorrowTree::List(_, _, of, items) => of == TAG_END || (room >= 1 && forall|i: int|
            0 <= i < items.len() ==> nests_within(#[trigger] items[i], (room - 1) as nat)),
        _ => true,
    }
}

/// Whether each of `members` can be read with `room` lists and compounds
/// open at once.
pub open spec fn members_nest_within(members: Seq<(usize, usize, BorrowTree)>, room: nat) -> bool {
    forall|i: int| 0 <= i < members.len() ==> nests_within((#[trigger] members[i]).2, room)
}

/// Whether each of `items` can be read with `room` lists and compounds open
/// at once.
pub open spec fn items_nest_within(items: Seq<BorrowTree>, room: nat) -> bool {
    forall|i: int| 0 <= i < items.len() ==> nests_within(#[trigger] items[i], room)
}

/// A payload that was read inside `depth` open nodes leaves the limit
/// standing.
pub proof fn lemma_payload_nests(data: Seq<u8>, d: Dialect, tag: u8, at: int, depth: nat)
    requires
        0 <= at <= data.len(),
        depth <= RECURSE_LIMIT,
        payload_at(data, d, tag, at, depth) is Ok,
    ensures
        nests_within(payload_at(data, d, tag, at, depth)->Ok_0.0, (RECURSE_LIMIT - depth) as nat),
    decreases data.len() - at, 1nat,
{
    crate::borrow::layout::lemma_closed_advances(data, d, tag, at);
    match open_at(data, d, tag, at) {
        Ok((BorrowTree::Compound(ptr, name, _), true, start)) => {
            lemma_members_nest(data, d, start, Seq::empty(), depth + 1);
        },
        Ok((BorrowTree::List(ptr, count, of, _), true, start)) => {
            if at < start <= data.len() {
                lemma_elements_nest(data, d, of, start, count as nat, Seq::empty(), depth + 1);
            }
        },
        _ => {},
    }
}

/// Members that were read leave the limit standing.
pub proof fn lemma_members_nest(
    data: Seq<u8>,
    d: Dialect,
    at: int,
    acc: Seq<(usize, usize, BorrowTree)>,
    depth: nat,
)
    requires
        0 <= at <= data.len(),
        members_at(data, d, at, acc, depth) is Ok,
        members_nest_within(acc, (RECURSE_LIMIT - depth) as nat),
    ensures
        depth <= RECURSE_LIMIT,
        members_nest_within(
            members_at(data, d, at, acc, depth)->Ok_0.0,
            (RECURSE_LIMIT - depth) as nat,
        ),
    decreases data.len() - at, 0nat,
{
    match member_head_at(data, d, at) {
        Ok(Some((tag, name_start, name_len, start))) => {
            if at < start <= data.len() {
                lemma_payload_nests(data, d, tag, start, depth);
                match payload_at(data, d, tag, start, depth) {
                    Ok((child, end)) => {
                        let more = acc.push((name_start, name_len, child));
                        assert(members_nest_within(more, (RECURSE_LIMIT - depth) as nat)) by {
                            assert forall|i: int| 0 <= i < more.len() implies nests_within(
                                (#[trigger] more[i]).2,
                                (RECURSE_LIMIT - depth) as nat,
                            ) by {
                                if i < acc.len() {
                                    assert(more[i] == acc[i]);
                                }
                            }
                        }
                        lemma_members_nest(data, d, end, more, depth);
                    },
                    Err(_) => {},
                }
            }
        },
        _ => {},
    }
}

/// Elements that were read leave the limit standing.
pub proof fn lemma_elements_nest(
    data: Seq<u8>,
    d: Dialect,
    tag: u8,
    at: int,
    count: nat,
    acc: Seq<BorrowTree>,
    depth: nat,
)
    requires
        0 <= at <= data.len(),
        elements_at(data, d, tag, at, count, acc, depth) is Ok,
        items_nest_within(acc, (RECURSE_LIMIT - depth) as nat),
    ensures
        depth <= RECURSE_LIMIT,
        items_nest_within(
            elements_at(data, d, tag, at, count, acc, depth)->Ok_0.0,
            (RECURSE_LIMIT - depth) as nat,
        ),
    decreases data.len() - at, 2nat,
{
    if acc.len() < count {
        lemma_payload_nests(data, d, tag, at, depth);
        match payload_at(data, d, tag, at, depth) {
            Ok((child, end)) => {
                let more = acc.push(child);
                assert(items_nest_within(more, (RECURSE_LIMIT - depth) as nat)) by {
                    assert forall|i: int| 0 <= i < more.len() implies nests_within(
                        #[trigger] more[i],
                        (RECURSE_LIMIT - depth) as nat,
                    ) by {
                        if i < acc.len() {
                            assert(more[i] == acc[i]);
                        }
                    }
                }
                lemma_elements_nest(data, d, tag, end, count, more, depth);
            },
            Err(_) => {},
        }
    }
}

/// Depth bound: a tree that was read never has more than `RECURSE_LIMIT`
/// lists and compounds inside one another. Input that nests deeper is an
/// error, whatever else it holds.
pub proof fn lemma_depth_is_bounded(data: Seq<u8>, d: Dialect, at: int)
    requires
        0 <= at,
        root_at(data, d, at) is Ok,
    ensures
        nests_within(root_at(data, d, at)->Ok_0.0, RECURSE_LIMIT as nat),
{
    if payload_at(data, d, TAG_LIST, at + 1, 0) is Ok {
        lemma_payload_nests(data, d, TAG_LIST, at + 1, 0);
    }
    if members_at(data, d, at + 1, Seq::empty(), 1) is Ok {
        lemma_members_nest(data, d, at + 1, Seq::empty(), 1);
    }
    match text_len_at(data, d, at + 1) {
        Ok((len, start)) => {
            if start + len <= data.len() && members_at(data, d, start + len, Seq::empty(), 1)
                is Ok {
                lemma_members_nest(data, d, start + len, Seq::empty(), 1);
            }
        },
        Err(_) => {},
    }
}

/// Whether the `width` bytes at `to` in `other` are those at `at` in `data`
/// in reverse: the same number in the other byte order.
pub open spec fn mirrored(data: Seq<u8>, at: int, other: Seq<u8>, to: int, width: int) -> bool {
    &&& 0 <= at
    &&& at + width <= data.len()
    &&& 0 <= to
    &&& to + width <= other.len()
    &&& forall|i: int| 0 <= i < width ==> #[trigger] other[to + i] == data[at + width - 1 - i]
}

/// Dialect endianness: a number that the Java edition writes at `at`, and
/// the Bedrock edition, in the other byte order, at `to`, decodes to the
/// same value from both. This holds of the five kinds of numbers that have
/// more than one byte.
pub proof fn lemma_byte_orders_agree(java: Seq<u8>, at: usize, bedrock: Seq<u8>, to: usize)
    ensures
        mirrored(java, at as int, bedrock, to as int, 2) ==> owned(
            java,
            Dialect::Java,
            BorrowTree::Short(at),
        ) == owned(bedrock, Dialect::BedrockDisk, BorrowTree::Short(to)),
        mirrored(java, at as int, bedrock, to as int, 4) ==> owned(
            java,
            Dialect::Java,
            BorrowTree::Int(at),
        ) == owned(bedrock, Dialect::BedrockDisk, BorrowTree::Int(to)),
        mirrored(java, at as int, bedrock, to as int, 4) ==> owned(
            java,
            Dialect::Java,
            BorrowTree::Float(at),
        ) == owned(bedrock, Dialect::BedrockDisk, BorrowTree::Float(to)),
        mirrored(java, at as int, bedrock, to as int, 8) ==> owned(
            java,
            Dialect::Java,
            BorrowTree::Long(at),
        ) == owned(bedrock, Dialect::BedrockDisk, BorrowTree::Long(to)),
        mirrored(java, at as int, bedrock, to as int, 8) ==> owned(
            java,
            Dialect::Java,
            BorrowTree::Double(at),
        ) == owned(bedrock, Dialect::BedrockDisk, BorrowTree::Double(to)),
{
    if mirrored(java, at as int, bedrock, to as int, 2) {
        crate::wire::lemma_u16_orders_mirror(java, bedrock, at as int, to as int);
    }
    if mirrored(java, at as int, bedrock, to as int, 4) {
        crate::wire::lemma_u32_orders_mirror(java, bedrock, at as int, to as int);
    }
    if mirrored(java, at as int, bedrock, to as int, 8) {
        crate::wire::lemma_u64_orders_mirror(java, bedrock, at as int, to as int);
    }
}

/// Whether every list of a tree has as many children as it declares, or
/// none where its elements are tagged `TAG_END`.
pub open spec fn counts_match(tree: BorrowTree) -> bool
    decreases tree,
{
    match tree {
        BorrowTree::Compound(_, _, members) => forall|i: int|
            0 <= i < members.len() ==> counts_match((#[trigger] members[i]).2),
        BorrowTree::List(_, count, of, items) => items.len() == (if of == TAG_END {
            0
        } else {
            count as int
        }) && forall|i: int| 0 <= i < items.len() ==> counts_match(#[trigger] items[i]),
        _ => true,
    }
}

/// Whether the counts match in each of `members`.
pub open spec fn members_counts_match(members: Seq<(usize, usize, BorrowTree)>) -> bool {
    forall|i: int| 0 <= i < members.len() ==> counts_match((#[trigger] members[i]).2)
}

/// Whether the counts match in each of `items`.
pub open spec fn items_counts_match(items: Seq<BorrowTree>) -> bool {
    forall|i: int| 0 <= i < items.len() ==> counts_match(#[trigger] items[i])
}

/// The counts match in a payload that was read.
pub proof fn lemma_payload_counts(data: Seq<u8>, d: Dialect, tag: u8, at: int, depth: nat)
    requires
        0 <= at <= data.len(),
        payload_at(data, d, tag, at, depth) is Ok,
    ensures
        counts_match(payload_at(data, d, tag, at, depth)->Ok_0.0),
    decreases data.len() - at, 1nat,
{
    crate::borrow::layout::lemma_closed_advances(data, d, tag, at);
    match open_at(data, d, tag, at) {
        Ok((BorrowTree::Compound(ptr, name, _), true, start)) => {
            lemma_members_counts(data, d, start, Seq::empty(), depth + 1);
        },
        Ok((BorrowTree::List(ptr, count, of, _), true, start)) => {
            if at < start <= data.len() {
                lemma_elements_counts(data, d, of, start, count as nat, Seq::empty(), depth + 1);
            }
        },
        _ => {},
    }
}

/// The counts match in members that were read.
pub proof fn lemma_members_counts(
    data: Seq<u8>,
    d: Dialect,
    at: int,
    acc: Seq<(usize, usize, BorrowTree)>,
    depth: nat,
)
    requires
        0 <= at <= data.len(),
        members_at(data, d, at, acc, depth) is Ok,
        members_counts_match(acc),
    ensures
        members_counts_match(members_at(data, d, at, acc, depth)->Ok_0.0),
    decreases data.len() - at, 0nat,
{
    match member_head_at(data, d, at) {
        Ok(Some((tag, name_start, name_len, start))) => {
            if at < start <= data.len() {
                lemma_payload_counts(data, d, tag, start, depth);
                match payload_at(data, d, tag, start, depth) {
                    Ok((child, end)) => {
                        let more = acc.push((name_start, name_len, child));
                        assert(members_counts_match(more)) by {
                            assert forall|i: int| 0 <= i < more.len() implies counts_match(
                                (#[trigger] more[i]).2,
                            ) by {
                                if i < acc.len() {
                                    assert(more[i] == acc[i]);
                                }
                            }
                        }
                        lemma_members_counts(data, d, end, more, depth);
                    },
                    Err(_) => {},
                }
            }
        },
        _ => {},
    }
}

/// Elements that were read are as many as the list declares, and the
/// counts match in each.
pub proof fn lemma_elements_counts(
    data: Seq<u8>,
    d: Dialect,
    tag: u8,
    at: int,
    count: nat,
    acc: Seq<BorrowTree>,
    depth: nat,
)
    requires
        0 <= at <= data.len(),
        elements_at(data, d, tag, at, count, acc, depth) is Ok,
        acc.len() <= count,
        items_counts_match(acc),
    ensures
        elements_at(data, d, tag, at, count, acc, depth)->Ok_0.0.len() == count,
        items_counts_match(elements_at(data, d, tag, at, count, acc, depth)->Ok_0.0),
    decreases data.len() - at, 2nat,
{
    if acc.len() < count {
        lemma_payload_counts(data, d, tag, at, depth);
        match payload_at(data, d, tag, at, depth) {
            Ok((child, end)) => {
                let more = acc.push(child);
                assert(items_counts_match(more)) by {
                    assert forall|i: int| 0 <= i < more.len() implies counts_match(
                        #[trigger] more[i],
                    ) by {
                        if i < acc.len() {
                            assert(more[i] == acc[i]);
                        }
                    }
                }
                lemma_elements_counts(data, d, tag, end, count, more, depth);
            },
            Err(_) => {},
        }
    }
}

/// A list of a tree that was read has one child for each element that it
/// declares, whatever the tag of the elements, but for a list of elements
/// tagged `TAG_END`, which has none.
pub proof fn lemma_counts_match(data: Seq<u8>, d: Dialect, at: int)
    requires
        0 <= at,
        root_at(data, d, at) is Ok,
    ensures
        counts_match(root_at(data, d, at)->Ok_0.0),
{
    if payload_at(data, d, TAG_LIST, at + 1, 0) is Ok {
        lemma_payload_counts(data, d, TAG_LIST, at + 1, 0);
    }
    if members_at(data, d, at + 1, Seq::empty(), 1) is Ok {
        lemma_members_counts(data, d, at + 1, Seq::empty(), 1);
    }
    match text_len_at(data, d, at + 1) {
        Ok((len, start)) => {
            if start + len <= data.len() && members_at(data, d, start + len, Seq::empty(), 1)
                is Ok {
                lemma_members_counts(data, d, start + len, Seq::empty(), 1);
            }
        },
        Err(_) => {},
    }
}

/// A compound inside as many lists and compounds as the limit allows is an
/// error, whatever it holds.
pub proof fn lemma_beyond_the_limit(data: Seq<u8>, d: Dialect, at: int)
    ensures
        payload_at(data, d, crate::nbt_consts::TAG_COMPOUND, at, RECURSE_LIMIT as nat) == Err::<
            (BorrowTree, int),
            crate::error::NbtError,
        >(crate::error::NbtError::NbtDepthTooBig(RECURSE_LIMIT)),
{
}

} // verus!
