//! The index-only tree: every node holds offsets into the buffer it was read
//! from, and no data of its own.

use vstd::prelude::*;

pub mod bounds;
pub mod laws;
pub mod layout;
pub mod own;
pub mod read;

verus! {

/// A node of the index-only tree. Every `usize` but a count or a length is
/// an offset into the buffer that the tree was read from, and means nothing
/// without that buffer.
#[derive(Debug, PartialEq)]
pub enum BorrowNbtValue {
    /// Where the byte is.
    Byte(usize),
    /// Where the 16-bit integer starts.
    Short(usize),
    /// Where the 32-bit integer starts.
    Int(usize),
    /// Where the 64-bit integer starts.
    Long(usize),
    /// Where the 32-bit IEEE 754 number starts.
    Float(usize),
    /// Where the 64-bit IEEE 754 number starts.
    Double(usize),
    /// Where the bytes start, and how many there are.
    ByteArray(usize, usize),
    /// Where the bytes of the text start, and how many there are.
    String(usize, usize),
    /// Where the count stands, the count, the tag of the elements, and the
    /// elements in order.
    List(usize, usize, u8, Vec<BorrowNbtValue>),
    /// Where the compound starts, the length of its name, if it has one, and
    /// its members in order: where the name starts, how long it is, and the
    /// value.
    Compound(usize, Option<usize>, Vec<(usize, usize, BorrowNbtValue)>),
    /// Where the integers start, and how many there are.
    IntArray(usize, usize),
    /// Where the integers start, and how many there are.
    LongArray(usize, usize),
}

/// What a [`BorrowNbtValue`] is: the same tree, with sequences for vectors.
pub enum BorrowTree {
    Byte(usize),
    Short(usize),
    Int(usize),
    Long(usize),
    Float(usize),
    Double(usize),
    ByteArray(usize, usize),
    String(usize, usize),
    List(usize, usize, u8, Seq<BorrowTree>),
    Compound(usize, Option<usize>, Seq<(usize, usize, BorrowTree)>),
    IntArray(usize, usize),
    LongArray(usize, usize),
}

/// The trees of a vector of nodes.
pub open spec fn item_trees(items: Vec<BorrowNbtValue>) -> Seq<BorrowTree>
    decreases items,
{
    Seq::new(
        items.len() as nat,
        |i: int|
            if 0 <= i < items.len() {
                items[i].view()
            } else {
                BorrowTree::Byte(0)
            },
    )
}

/// The trees of a vector of members.
pub open spec fn member_trees(members: Vec<(usize, usize, BorrowNbtValue)>) -> Seq<
    (usize, usize, BorrowTree),
>
    decreases members,
{
    Seq::new(
        members.len() as nat,
        |i: int|
            if 0 <= i < members.len() {
                (members[i].0, members[i].1, members[i].2.view())
            } else {
                (0, 0, BorrowTree::Byte(0))
            },
    )
}

impl View for BorrowNbtValue {
    type V = BorrowTree;

    open spec fn view(&self) -> BorrowTree
        decreases self,
    {
        match self {
            BorrowNbtValue::Byte(p) => BorrowTree::Byte(*p),
            BorrowNbtValue::Short(p) => BorrowTree::Short(*p),
            BorrowNbtValue::Int(p) => BorrowTree::Int(*p),
            BorrowNbtValue::Long(p) => BorrowTree::Long(*p),
            BorrowNbtValue::Float(p) => BorrowTree::Float(*p),
            BorrowNbtValue::Double(p) => BorrowTree::Double(*p),
            BorrowNbtValue::ByteArray(p, n) => BorrowTree::ByteArray(*p, *n),
            BorrowNbtValue::String(p, n) => BorrowTree::String(*p, *n),
            BorrowNbtValue::List(p, n, t, items) => BorrowTree::List(*p, *n, *t, item_trees(*items)),
            BorrowNbtValue::Compound(p, name, members) => BorrowTree::Compound(
                *p,
                *name,
                member_trees(*members),
            ),
            BorrowNbtValue::IntArray(p, n) => BorrowTree::IntArray(*p, *n),
            BorrowNbtValue::LongArray(p, n) => BorrowTree::LongArray(*p, *n),
        }
    }
}

impl BorrowNbtValue {
    /// A compound without a name of its own: one inside a list, or the root
    /// of a dialect whose roots are nameless.
    pub fn nameless_compound(ptr: usize, values: Vec<(usize, usize, BorrowNbtValue)>) -> (r:
        BorrowNbtValue)
        ensures
            r@ == BorrowTree::Compound(ptr, None, member_trees(values)),
    {
        BorrowNbtValue::Compound(ptr, None, values)
    }

    /// A compound with a name of `name_len` bytes.
    pub fn named_compound(
        ptr: usize,
        name_len: usize,
        values: Vec<(usize, usize, BorrowNbtValue)>,
    ) -> (r: BorrowNbtValue)
        ensures
            r@ == BorrowTree::Compound(ptr, Some(name_len), member_trees(values)),
    {
        BorrowNbtValue::Compound(ptr, Some(name_len), values)
    }

    /// A compound as a member of a compound: where the member's name
    /// starts, how long it is, and the compound.
    pub fn sub_compound(
        name_start: usize,
        name_len: usize,
        ptr: usize,
        values: Vec<(usize, usize, BorrowNbtValue)>,
    ) -> (r: (usize, usize, BorrowNbtValue))
        ensures
            r.0 == name_start,
            r.1 == name_len,
            r.2@ == BorrowTree::Compound(ptr, None, member_trees(values)),
    {
        (name_start, name_len, BorrowNbtValue::Compound(ptr, None, values))
    }

    /// A list as a member of a compound: where the member's name starts,
    /// how long it is, and the list.
    pub fn sub_list(
        name_start: usize,
        name_len: usize,
        ptr: usize,
        len: usize,
        type_id: u8,
        values: Vec<BorrowNbtValue>,
    ) -> (r: (usize, usize, BorrowNbtValue))
        ensures
            r.0 == name_start,
            r.1 == name_len,
            r.2@ == BorrowTree::List(ptr, len, type_id, item_trees(values)),
    {
        (name_start, name_len, BorrowNbtValue::List(ptr, len, type_id, values))
    }

    /// The offset that the node holds first.
    pub fn start_idx(&self) -> (r: usize)
        ensures
            r == start_of(self@),
    {
        match self {
            BorrowNbtValue::Byte(ptr) => *ptr,
            BorrowNbtValue::Short(ptr) => *ptr,
            BorrowNbtValue::Int(ptr) => *ptr,
            BorrowNbtValue::Long(ptr) => *ptr,
            BorrowNbtValue::Float(ptr) => *ptr,
            BorrowNbtValue::Double(ptr) => *ptr,
            BorrowNbtValue::ByteArray(ptr, _) => *ptr,
            BorrowNbtValue::String(ptr, _) => *ptr,
            BorrowNbtValue::List(ptr, _, _, _) => *ptr,
            BorrowNbtValue::Compound(ptr, _, _) => *ptr,
            BorrowNbtValue::IntArray(ptr, _) => *ptr,
            BorrowNbtValue::LongArray(ptr, _) => *ptr,
        }
    }

    /// Where a number is: none for any other node.
    pub fn as_value_idx(&self) -> (r: Option<usize>)
        ensures
            r == match self@ {
                BorrowTree::Byte(ptr) => Some(ptr),
                BorrowTree::Short(ptr) => Some(ptr),
                BorrowTree::Int(ptr) => Some(ptr),
                BorrowTree::Long(ptr) => Some(ptr),
                BorrowTree::Float(ptr) => Some(ptr),
                BorrowTree::Double(ptr) => Some(ptr),
                _ => None::<usize>,
            },
    {
        match self {
            BorrowNbtValue::Byte(ptr) => Some(*ptr),
            BorrowNbtValue::Short(ptr) => Some(*ptr),
            BorrowNbtValue::Int(ptr) => Some(*ptr),
            BorrowNbtValue::Long(ptr) => Some(*ptr),
            BorrowNbtValue::Float(ptr) => Some(*ptr),
            BorrowNbtValue::Double(ptr) => Some(*ptr),
            _ => None,
        }
    }

    /// Where the elements of an array start and how many there are: none
    /// for any other node.
    pub fn as_array_idx(&self) -> (r: Option<(usize, usize)>)
        ensures
            r == match self@ {
                BorrowTree::ByteArray(ptr, len) => Some((ptr, len)),
                BorrowTree::IntArray(ptr, len) => Some((ptr, len)),
                BorrowTree::LongArray(ptr, len) => Some((ptr, len)),
                _ => None::<(usize, usize)>,
            },
    {
        match self {
            BorrowNbtValue::ByteArray(ptr, len) => Some((*ptr, *len)),
            BorrowNbtValue::IntArray(ptr, len) => Some((*ptr, *len)),
            BorrowNbtValue::LongArray(ptr, len) => Some((*ptr, *len)),
            _ => None,
        }
    }

    /// Where the bytes of a string start and how many there are: none for
    /// any other node.
    pub fn as_string_idx(&self) -> (r: Option<(usize, usize)>)
        ensures
            r == match self@ {
                BorrowTree::String(ptr, len) => Some((ptr, len)),
                _ => None::<(usize, usize)>,
            },
    {
        match self {
            BorrowNbtValue::String(ptr, len) => Some((*ptr, *len)),
            _ => None,
        }
    }

    /// Where the count of a list stands, the count and the tag of the
    /// elements: none for any other node.
    pub fn as_list_idx(&self) -> (r: Option<(usize, usize, u8)>)
        ensures
            r == match self@ {
                BorrowTree::List(ptr, len, type_id, _) => Some((ptr, len, type_id)),
                _ => None::<(usize, usize, u8)>,
            },
    {
        match self {
            BorrowNbtValue::List(ptr, len, type_id, _) => Some((*ptr, *len, *type_id)),
            _ => None,
        }
    }

    /// Where a compound starts, the length of its name and its members:
    /// none for any other node.
    pub fn as_compound_idx(&self) -> (r: Option<
        (usize, Option<usize>, &Vec<(usize, usize, BorrowNbtValue)>),
    >)
        ensures
            match r {
                Some((ptr, name, members)) => self@ == BorrowTree::Compound(
                    ptr,
                    name,
                    member_trees(*members),
                ),
                None => !(self@ is Compound),
            },
    {
        match self {
            BorrowNbtValue::Compound(ptr, name_len, values) => Some((*ptr, *name_len, values)),
            _ => None,
        }
    }
}

/// The offset that a node holds first.
pub open spec fn start_of(tree: BorrowTree) -> usize {
    match tree {
        BorrowTree::Byte(ptr) => ptr,
        BorrowTree::Short(ptr) => ptr,
        BorrowTree::Int(ptr) => ptr,
        BorrowTree::Long(ptr) => ptr,
        BorrowTree::Float(ptr) => ptr,
        BorrowTree::Double(ptr) => ptr,
        BorrowTree::ByteArray(ptr, _) => ptr,
        BorrowTree::String(ptr, _) => ptr,
        BorrowTree::List(ptr, _, _, _) => ptr,
        BorrowTree::Compound(ptr, _, _) => ptr,
        BorrowTree::IntArray(ptr, _) => ptr,
        BorrowTree::LongArray(ptr, _) => ptr,
    }
}

impl Clone for BorrowNbtValue {
    /// A copy of the tree.
    fn clone(&self) -> (r: BorrowNbtValue)
        ensures
            r@ == self@,
        decreases self,
    {
        match self {
            BorrowNbtValue::Byte(p) => BorrowNbtValue::Byte(*p),
            BorrowNbtValue::Short(p) => BorrowNbtValue::Short(*p),
            BorrowNbtValue::Int(p) => BorrowNbtValue::Int(*p),
            BorrowNbtValue::Long(p) => BorrowNbtValue::Long(*p),
            BorrowNbtValue::Float(p) => BorrowNbtValue::Float(*p),
            BorrowNbtValue::Double(p) => BorrowNbtValue::Double(*p),
            BorrowNbtValue::ByteArray(p, n) => BorrowNbtValue::ByteArray(*p, *n),
            BorrowNbtValue::String(p, n) => BorrowNbtValue::String(*p, *n),
            BorrowNbtValue::IntArray(p, n) => BorrowNbtValue::IntArray(*p, *n),
            BorrowNbtValue::LongArray(p, n) => BorrowNbtValue::LongArray(*p, *n),
            BorrowNbtValue::List(p, n, t, items) => {
                let mut copy: Vec<BorrowNbtValue> = Vec::with_capacity(items.len());
                let mut i: usize = 0;
                while i < items.len()
                    invariant
                        i <= items.len(),
                        self is List,
                        self->List_3 == *items,
                        copy.len() == i,
                        forall|k: int| 0 <= k < i ==> (#[trigger] copy[k])@ == items[k]@,
                    decreases items.len() - i,
                {
                    proof {
                        vstd::std_specs::vec::axiom_vec_index_decreases(*items, i as int);
                        assert(decreases_to!(*self => self->List_3));
                    }
                    copy.push(items[i].clone());
                    i += 1;
                }
                assert(item_trees(copy) =~= item_trees(*items));
                BorrowNbtValue::List(*p, *n, *t, copy)
            },
            BorrowNbtValue::Compound(p, name, members) => {
                let mut copy: Vec<(usize, usize, BorrowNbtValue)> = Vec::with_capacity(
                    members.len(),
                );
                let mut i: usize = 0;
                while i < members.len()
                    invariant
                        i <= members.len(),
                        self is Compound,
                        self->Compound_2 == *members,
                        copy.len() == i,
                        forall|k: int|
                            0 <= k < i ==> (#[trigger] copy[k]).0 == members[k].0 && copy[k].1
                                == members[k].1 && copy[k].2@ == members[k].2@,
                    decreases members.len() - i,
                {
                    proof {
                        vstd::std_specs::vec::axiom_vec_index_decreases(*members, i as int);
                        assert(decreases_to!(*self => self->Compound_2));
                        assert(decreases_to!(members[i as int] => members[i as int].2));
                    }
                    copy.push((members[i].0, members[i].1, members[i].2.clone()));
                    i += 1;
                }
                assert(member_trees(copy) =~= member_trees(*members));
                BorrowNbtValue::Compound(*p, *name, copy)
            },
        }
    }
}

} // verus!
