//! The decoded tree: every node holds its data, and needs no buffer.

use vstd::prelude::*;
use vstd::slice::slice_to_vec;
use crate::error::NbtError;
use crate::mutf8::{well_encoded, Mutf8String};

verus! {

/// A node of the decoded tree.
///
/// The two IEEE 754 variants hold the bit pattern of their number, as it
/// stands on the wire.
#[derive(Debug, PartialEq)]
pub enum NbtValue {
    /// A signed byte.
    Byte(i8),
    /// A signed 16-bit integer.
    Short(i16),
    /// A signed 32-bit integer.
    Int(i32),
    /// A signed 64-bit integer.
    Long(i64),
    /// The bits of a 32-bit IEEE 754 number.
    Float(u32),
    /// The bits of a 64-bit IEEE 754 number.
    Double(u64),
    /// Signed bytes.
    ByteArray(Vec<i8>),
    /// A string, not yet decoded.
    String(Mutf8String),
    /// Values in order.
    List(Vec<NbtValue>),
    /// The name, where there is one, and the members in order.
    Compound(Option<Mutf8String>, Vec<(Mutf8String, NbtValue)>),
    /// Signed 32-bit integers.
    IntArray(Vec<i32>),
    /// Signed 64-bit integers.
    LongArray(Vec<i64>),
}

/// What an [`NbtValue`] is: the same tree, with sequences for vectors and
/// the bytes of each string.
pub enum ValueTree {
    Byte(i8),
    Short(i16),
    Int(i32),
    Long(i64),
    Float(u32),
    Double(u64),
    ByteArray(Seq<i8>),
    String(Seq<u8>),
    List(Seq<ValueTree>),
    Compound(Option<Seq<u8>>, Seq<(Seq<u8>, ValueTree)>),
    IntArray(Seq<i32>),
    LongArray(Seq<i64>),
}

/// The trees of a vector of values.
pub open spec fn value_trees(items: Vec<NbtValue>) -> Seq<ValueTree>
    decreases items,
{
    Seq::new(
        items.len() as nat,
        |i: int|
            if 0 <= i < items.len() {
                items[i].view()
            } else {
                ValueTree::Byte(0)
            },
    )
}

/// The trees of a vector of named values.
pub open spec fn named_trees(members: Vec<(Mutf8String, NbtValue)>) -> Seq<(Seq<u8>, ValueTree)>
    decreases members,
{
    Seq::new(
        members.len() as nat,
        |i: int|
            if 0 <= i < members.len() {
                (members[i].0@, members[i].1.view())
            } else {
                (Seq::empty(), ValueTree::Byte(0))
            },
    )
}

/// The bytes of a name, where there is one.
pub open spec fn name_bytes(name: Option<Mutf8String>) -> Option<Seq<u8>> {
    match name {
        Some(name) => Some(name@),
        None => None,
    }
}

impl View for NbtValue {
    type V = ValueTree;

    open spec fn view(&self) -> ValueTree
        decreases self,
    {
        match self {
            NbtValue::Byte(v) => ValueTree::Byte(*v),
            NbtValue::Short(v) => ValueTree::Short(*v),
            NbtValue::Int(v) => ValueTree::Int(*v),
            NbtValue::Long(v) => ValueTree::Long(*v),
            NbtValue::Float(v) => ValueTree::Float(*v),
            NbtValue::Double(v) => ValueTree::Double(*v),
            NbtValue::ByteArray(v) => ValueTree::ByteArray(v@),
            NbtValue::String(v) => ValueTree::String(v@),
            NbtValue::List(items) => ValueTree::List(value_trees(*items)),
            NbtValue::Compound(name, members) => ValueTree::Compound(
                name_bytes(*name),
                named_trees(*members),
            ),
            NbtValue::IntArray(v) => ValueTree::IntArray(v@),
            NbtValue::LongArray(v) => ValueTree::LongArray(v@),
        }
    }
}

/// The tag of a value.
pub open spec fn tag_of(tree: ValueTree) -> u8 {
    match tree {
        ValueTree::Byte(_) => 1,
        ValueTree::Short(_) => 2,
        ValueTree::Int(_) => 3,
        ValueTree::Long(_) => 4,
        ValueTree::Float(_) => 5,
        ValueTree::Double(_) => 6,
        ValueTree::ByteArray(_) => 7,
        ValueTree::String(_) => 8,
        ValueTree::List(_) => 9,
        ValueTree::Compound(_, _) => 10,
        ValueTree::IntArray(_) => 11,
        ValueTree::LongArray(_) => 12,
    }
}

/// One for bytes that are not Modified UTF-8, else nothing.
pub open spec fn bad_text(bytes: Seq<u8>) -> nat {
    if well_encoded(bytes) {
        0
    } else {
        1
    }
}

/// How many strings and names of a tree are not Modified UTF-8.
pub open spec fn bad_strings(tree: ValueTree) -> nat
    decreases tree, 0nat,
{
    match tree {
        ValueTree::String(bytes) => bad_text(bytes),
        ValueTree::List(items) => bad_in_items(items, items.len()),
        ValueTree::Compound(name, members) => (match name {
            Some(bytes) => bad_text(bytes),
            None => 0,
        }) + bad_in_members(members, members.len()),
        _ => 0,
    }
}

/// How many strings and names of the first `n` of `items` are not Modified
/// UTF-8.
pub open spec fn bad_in_items(items: Seq<ValueTree>, n: nat) -> nat
    decreases items, n,
{
    if n == 0 || n > items.len() {
        0
    } else {
        bad_in_items(items, (n - 1) as nat) + bad_strings(items[n - 1])
    }
}

/// How many strings and names of the first `n` of `members`, their own
/// names among them, are not Modified UTF-8.
pub open spec fn bad_in_members(members: Seq<(Seq<u8>, ValueTree)>, n: nat) -> nat
    decreases members, n,
{
    if n == 0 || n > members.len() {
        0
    } else {
        bad_in_members(members, (n - 1) as nat) + bad_text(members[n - 1].0) + bad_strings(
            members[n - 1].1,
        )
    }
}

/// `n` times the error of a string that is not Modified UTF-8.
pub open spec fn text_errors(n: nat) -> Seq<NbtError> {
    Seq::new(n, |i: int| NbtError::Mutf8Error)
}

/// Puts one error behind `errors` where `text` is not Modified UTF-8.
fn verify_text(text: &Mutf8String, errors: &mut Vec<NbtError>)
    ensures
        final(errors)@ == old(errors)@ + text_errors(bad_text(text@)),
{
    match text.verify() {
        Some(_) => {
            errors.push(NbtError::Mutf8Error);
            assert(errors@ =~= old(errors)@ + text_errors(1));
        },
        None => {
            assert(errors@ =~= old(errors)@ + text_errors(0));
        },
    }
}

impl NbtValue {
    /// The tag of the value.
    pub fn tag(&self) -> (r: u8)
        ensures
            r == tag_of(self@),
    {
        match self {
            NbtValue::Byte(_) => 1,
            NbtValue::Short(_) => 2,
            NbtValue::Int(_) => 3,
            NbtValue::Long(_) => 4,
            NbtValue::Float(_) => 5,
            NbtValue::Double(_) => 6,
            NbtValue::ByteArray(_) => 7,
            NbtValue::String(_) => 8,
            NbtValue::List(_) => 9,
            NbtValue::Compound(_, _) => 10,
            NbtValue::IntArray(_) => 11,
            NbtValue::LongArray(_) => 12,
        }
    }

    /// The signed byte, or the error that the value is none.
    pub fn as_i18(&self) -> (r: Result<i8, NbtError>)
        ensures
            match r {
                Ok(v) => self@ is Byte && v == self@->Byte_0,
                Err(e) => !(self@ is Byte) && e == NbtError::IncorrectType(1, tag_of(self@)),
            },
    {
        match self {
            NbtValue::Byte(v) => Ok(*v),
            _ => Err(NbtError::IncorrectType(1, self.tag())),
        }
    }

    /// The 16-bit integer, or the error that the value is none.
    pub fn as_i16(&self) -> (r: Result<i16, NbtError>)
        ensures
            match r {
                Ok(v) => self@ is Short && v == self@->Short_0,
                Err(e) => !(self@ is Short) && e == NbtError::IncorrectType(2, tag_of(self@)),
            },
    {
        match self {
            NbtValue::Short(v) => Ok(*v),
            _ => Err(NbtError::IncorrectType(2, self.tag())),
        }
    }

    /// The 32-bit integer, or the error that the value is none.
    pub fn as_i32(&self) -> (r: Result<i32, NbtError>)
        ensures
            match r {
                Ok(v) => self@ is Int && v == self@->Int_0,
                Err(e) => !(self@ is Int) && e == NbtError::IncorrectType(3, tag_of(self@)),
            },
    {
        match self {
            NbtValue::Int(v) => Ok(*v),
            _ => Err(NbtError::IncorrectType(3, self.tag())),
        }
    }

    /// The 64-bit integer, or the error that the value is none.
    pub fn as_i64(&self) -> (r: Result<i64, NbtError>)
        ensures
            match r {
                Ok(v) => self@ is Long && v == self@->Long_0,
                Err(e) => !(self@ is Long) && e == NbtError::IncorrectType(4, tag_of(self@)),
            },
    {
        match self {
            NbtValue::Long(v) => Ok(*v),
            _ => Err(NbtError::IncorrectType(4, self.tag())),
        }
    }

    /// The bits of the 32-bit IEEE 754 number, or the error that the value is
    /// none.
    pub fn as_f32(&self) -> (r: Result<u32, NbtError>)
        ensures
            match r {
                Ok(v) => self@ is Float && v == self@->Float_0,
                Err(e) => !(self@ is Float) && e == NbtError::IncorrectType(5, tag_of(self@)),
            },
    {
        match self {
            NbtValue::Float(v) => Ok(*v),
            _ => Err(NbtError::IncorrectType(5, self.tag())),
        }
    }

    /// The bits of the 64-bit IEEE 754 number, or the error that the value is
    /// none.
    pub fn as_f64(&self) -> (r: Result<u64, NbtError>)
        ensures
            match r {
                Ok(v) => self@ is Double && v == self@->Double_0,
                Err(e) => !(self@ is Double) && e == NbtError::IncorrectType(6, tag_of(self@)),
            },
    {
        match self {
            NbtValue::Double(v) => Ok(*v),
            _ => Err(NbtError::IncorrectType(6, self.tag())),
        }
    }

    /// The signed bytes, or the error that the value is no such array.
    pub fn as_i8_array(&self) -> (r: Result<&Vec<i8>, NbtError>)
        ensures
            match r {
                Ok(v) => self@ is ByteArray && v@ == self@->ByteArray_0,
                Err(e) => !(self@ is ByteArray) && e == NbtError::IncorrectType(7, tag_of(self@)),
            },
    {
        match self {
            NbtValue::ByteArray(v) => Ok(v),
            _ => Err(NbtError::IncorrectType(7, self.tag())),
        }
    }

    /// The 32-bit integers, or the error that the value is no such array.
    pub fn as_i32_array(&self) -> (r: Result<&Vec<i32>, NbtError>)
        ensures
            match r {
                Ok(v) => self@ is IntArray && v@ == self@->IntArray_0,
                Err(e) => !(self@ is IntArray) && e == NbtError::IncorrectType(11, tag_of(self@)),
            },
    {
        match self {
            NbtValue::IntArray(v) => Ok(v),
            _ => Err(NbtError::IncorrectType(11, self.tag())),
        }
    }

    /// The 64-bit integers, or the error that the value is no such array.
    pub fn as_i64_array(&self) -> (r: Result<&Vec<i64>, NbtError>)
        ensures
            match r {
                Ok(v) => self@ is LongArray && v@ == self@->LongArray_0,
                Err(e) => !(self@ is LongArray) && e == NbtError::IncorrectType(12, tag_of(self@)),
            },
    {
        match self {
            NbtValue::LongArray(v) => Ok(v),
            _ => Err(NbtError::IncorrectType(12, self.tag())),
        }
    }

    /// The string, or the error that the value is none.
    pub fn as_string(&self) -> (r: Result<&Mutf8String, NbtError>)
        ensures
            match r {
                Ok(v) => self@ is String && v@ == self@->String_0,
                Err(e) => !(self@ is String) && e == NbtError::IncorrectType(8, tag_of(self@)),
            },
    {
        match self {
            NbtValue::String(v) => Ok(v),
            _ => Err(NbtError::IncorrectType(8, self.tag())),
        }
    }

    /// The items, or the error that the value is no list.
    pub fn as_list(&self) -> (r: Result<&Vec<NbtValue>, NbtError>)
        ensures
            match r {
                Ok(items) => self@ == ValueTree::List(value_trees(*items)),
                Err(e) => !(self@ is List) && e == NbtError::IncorrectType(9, tag_of(self@)),
            },
    {
        match self {
            NbtValue::List(v) => Ok(v),
            _ => Err(NbtError::IncorrectType(9, self.tag())),
        }
    }

    /// The name and the members, or the error that the value is no
    /// compound.
    pub fn as_compound(&self) -> (r: Result<
        (Option<&Mutf8String>, &Vec<(Mutf8String, NbtValue)>),
        NbtError,
    >)
        ensures
            match r {
                Ok((name, members)) => self@ is Compound && self@->Compound_1 == named_trees(
                    *members,
                ) && match name {
                    Some(text) => self@->Compound_0 == Some(text@),
                    None => self@->Compound_0 is None,
                },
                Err(e) => !(self@ is Compound) && e == NbtError::IncorrectType(10, tag_of(self@)),
            },
    {
        match self {
            NbtValue::Compound(name, v) => Ok((name.as_ref(), v)),
            _ => Err(NbtError::IncorrectType(10, self.tag())),
        }
    }

    /// Whether the value is a signed byte.
    pub fn is_i8(&self) -> (r: bool)
        ensures
            r == (self@ is Byte),
    {
        match self {
            NbtValue::Byte(_) => true,
            _ => false,
        }
    }

    /// Whether the value is a 16-bit integer.
    pub fn is_i16(&self) -> (r: bool)
        ensures
            r == (self@ is Short),
    {
        match self {
            NbtValue::Short(_) => true,
            _ => false,
        }
    }

    /// Whether the value is a 32-bit integer.
    pub fn is_i32(&self) -> (r: bool)
        ensures
            r == (self@ is Int),
    {
        match self {
            NbtValue::Int(_) => true,
            _ => false,
        }
    }

    /// Whether the value is a 64-bit integer.
    pub fn is_i64(&self) -> (r: bool)
        ensures
            r == (self@ is Long),
    {
        match self {
            NbtValue::Long(_) => true,
            _ => false,
        }
    }

    /// Whether the value is a 32-bit IEEE 754 number.
    pub fn is_f32(&self) -> (r: bool)
        ensures
            r == (self@ is Float),
    {
        match self {
            NbtValue::Float(_) => true,
            _ => false,
        }
    }

    /// Whether the value is a 64-bit IEEE 754 number.
    pub fn is_f64(&self) -> (r: bool)
        ensures
            r == (self@ is Double),
    {
        match self {
            NbtValue::Double(_) => true,
            _ => false,
        }
    }

    /// Whether the value is an array of signed bytes.
    pub fn is_i8_array(&self) -> (r: bool)
        ensures
            r == (self@ is ByteArray),
    {
        match self {
            NbtValue::ByteArray(_) => true,
            _ => false,
        }
    }

    /// Whether the value is an array of 32-bit integers.
    pub fn is_i32_array(&self) -> (r: bool)
        ensures
            r == (self@ is IntArray),
    {
        match self {
            NbtValue::IntArray(_) => true,
            _ => false,
        }
    }

    /// Whether the value is an array of 64-bit integers.
    pub fn is_i64_array(&self) -> (r: bool)
        ensures
            r == (self@ is LongArray),
    {
        match self {
            NbtValue::LongArray(_) => true,
            _ => false,
        }
    }

    /// Whether the value is a string.
    pub fn is_string(&self) -> (r: bool)
        ensures
            r == (self@ is String),
    {
        match self {
            NbtValue::String(_) => true,
            _ => false,
        }
    }

    /// Whether the value is a list.
    pub fn is_list(&self) -> (r: bool)
        ensures
            r == (self@ is List),
    {
        match self {
            NbtValue::List(_) => true,
            _ => false,
        }
    }

    /// Whether the value is a compound.
    pub fn is_compound(&self) -> (r: bool)
        ensures
            r == (self@ is Compound),
    {
        match self {
            NbtValue::Compound(_, _) => true,
            _ => false,
        }
    }

    /// The value that stands for true.
    pub fn value_true() -> (r: NbtValue)
        ensures
            r@ == ValueTree::Byte(1),
    {
        NbtValue::Byte(1)
    }

    /// The value that stands for false.
    pub fn value_false() -> (r: NbtValue)
        ensures
            r@ == ValueTree::Byte(0),
    {
        NbtValue::Byte(0)
    }

    /// Checks every string and name of the tree, and collects one error for
    /// each that is not Modified UTF-8: none where all are.
    pub fn verify_strings(&self) -> (r: Option<Vec<NbtError>>)
        ensures
            match r {
                None => bad_strings(self@) == 0,
                Some(errors) => bad_strings(self@) > 0 && errors@ == text_errors(
                    bad_strings(self@),
                ),
            },
    {
        let mut errors: Vec<NbtError> = Vec::new();
        self.inner_verify_strings(&mut errors);
        assert(errors@ =~= text_errors(bad_strings(self@)));
        if errors.is_empty() {
            None
        } else {
            Some(errors)
        }
    }

    /// Puts behind `errors` one error for each string and name of the tree
    /// that is not Modified UTF-8.
    fn inner_verify_strings(&self, errors: &mut Vec<NbtError>)
        ensures
            final(errors)@ == old(errors)@ + text_errors(bad_strings(self@)),
        decreases self,
    {
        match self {
            NbtValue::String(text) => {
                verify_text(text, errors);
            },
            NbtValue::List(items) => {
                let ghost trees = value_trees(*items);
                let mut i: usize = 0;
                while i < items.len()
                    invariant
                        i <= items.len(),
                        trees == value_trees(*items),
                        self is List,
                        self->List_0 == *items,
                        errors@ == old(errors)@ + text_errors(bad_in_items(trees, i as nat)),
                    decreases items.len() - i,
                {
                    proof {
                        vstd::std_specs::vec::axiom_vec_index_decreases(*items, i as int);
                        assert(decreases_to!(*self => self->List_0));
                    }
                    items[i].inner_verify_strings(errors);
                    i += 1;
                    assert(trees[i - 1] == items[i - 1]@);
                    assert(errors@ =~= old(errors)@ + text_errors(bad_in_items(trees, i as nat)));
                }
                assert(errors@ =~= old(errors)@ + text_errors(bad_strings(self@)));
            },
            NbtValue::Compound(name, members) => {
                let ghost trees = named_trees(*members);
                let ghost first: nat = match name {
                    Some(n) => bad_text(n@),
                    None => 0,
                };
                match name {
                    Some(n) => {
                        verify_text(n, errors);
                    },
                    None => {
                        assert(errors@ =~= old(errors)@ + text_errors(0));
                    },
                }
                let mut i: usize = 0;
                while i < members.len()
                    invariant
                        i <= members.len(),
                        trees == named_trees(*members),
                        self is Compound,
                        self->Compound_0 == *name,
                        self->Compound_1 == *members,
                        errors@ == old(errors)@ + text_errors(
                            first + bad_in_members(trees, i as nat),
                        ),
                    decreases members.len() - i,
                {
                    verify_text(&members[i].0, errors);
                    proof {
                        vstd::std_specs::vec::axiom_vec_index_decreases(*members, i as int);
                        assert(decreases_to!(*self => self->Compound_1));
                        assert(decreases_to!(members[i as int] => members[i as int].1));
                    }
                    members[i].1.inner_verify_strings(errors);
                    i += 1;
                    assert(trees[i - 1] == (members[i - 1].0@, members[i - 1].1@));
                    assert(errors@ =~= old(errors)@ + text_errors(
                        first + bad_in_members(trees, i as nat),
                    ));
                }
                assert(errors@ =~= old(errors)@ + text_errors(bad_strings(self@)));
            },
            _ => {
                assert(errors@ =~= old(errors)@ + text_errors(0));
            },
        }
    }
}

impl Clone for NbtValue {
    /// A copy of the tree.
    fn clone(&self) -> (r: NbtValue)
        ensures
            r@ == self@,
        decreases self,
    {
        match self {
            NbtValue::Byte(v) => NbtValue::Byte(*v),
            NbtValue::Short(v) => NbtValue::Short(*v),
            NbtValue::Int(v) => NbtValue::Int(*v),
            NbtValue::Long(v) => NbtValue::Long(*v),
            NbtValue::Float(v) => NbtValue::Float(*v),
            NbtValue::Double(v) => NbtValue::Double(*v),
            NbtValue::ByteArray(v) => NbtValue::ByteArray(slice_to_vec(v.as_slice())),
            NbtValue::String(v) => NbtValue::String(v.clone()),
            NbtValue::IntArray(v) => NbtValue::IntArray(slice_to_vec(v.as_slice())),
            NbtValue::LongArray(v) => NbtValue::LongArray(slice_to_vec(v.as_slice())),
            NbtValue::List(items) => {
                let mut copy: Vec<NbtValue> = Vec::with_capacity(items.len());
                let mut i: usize = 0;
                while i < items.len()
                    invariant
                        i <= items.len(),
                        self is List,
                        self->List_0 == *items,
                        copy.len() == i,
                        forall|k: int| 0 <= k < i ==> (#[trigger] copy[k])@ == items[k]@,
                    decreases items.len() - i,
                {
                    proof {
                        vstd::std_specs::vec::axiom_vec_index_decreases(*items, i as int);
                        assert(decreases_to!(*self => self->List_0));
                    }
                    copy.push(items[i].clone());
                    i += 1;
                }
                assert(value_trees(copy) =~= value_trees(*items));
                NbtValue::List(copy)
            },
            NbtValue::Compound(name, members) => {
                let own = match name {
                    Some(text) => Some(text.clone()),
                    None => None,
                };
                let mut copy: Vec<(Mutf8String, NbtValue)> = Vec::with_capacity(members.len());
                let mut i: usize = 0;
                while i < members.len()
                    invariant
                        i <= members.len(),
                        self is Compound,
                        self->Compound_1 == *members,
                        copy.len() == i,
                        forall|k: int|
                            0 <= k < i ==> (#[trigger] copy[k]).0@ == members[k].0@ && copy[k].1@
                                == members[k].1@,
                    decreases members.len() - i,
                {
                    proof {
                        vstd::std_specs::vec::axiom_vec_index_decreases(*members, i as int);
                        assert(decreases_to!(*self => self->Compound_1));
                        assert(decreases_to!(members[i as int] => members[i as int].1));
                    }
                    copy.push((members[i].0.clone(), members[i].1.clone()));
                    i += 1;
                }
                assert(named_trees(copy) =~= named_trees(*members));
                NbtValue::Compound(own, copy)
            },
        }
    }
}

} // verus!
