use vstd::prelude::*;

verus! {

/// A value that a container holds.
#[derive(Debug, PartialEq)]
pub enum LoroValue {
    Null,
    Bool(bool),
    I32(i32),
    String(String),
}

impl Clone for LoroValue {
    fn clone(&self) -> (copy: Self)
        ensures
            copy == *self,
    {
        match self {
            LoroValue::Null => LoroValue::Null,
            LoroValue::Bool(b) => LoroValue::Bool(*b),
            LoroValue::I32(n) => LoroValue::I32(*n),
            LoroValue::String(s) => LoroValue::String(s.clone()),
        }
    }
}

/// The kinds of content that an insertion carries.
#[derive(Clone, Copy, Debug, PartialEq, Eq, Structural)]
pub enum ContentType {
    Container,
    Text,
    Mapping,
    List,
}

/// What has a length in atoms.
pub trait HasLength {
    spec fn spec_content_len(&self) -> nat;

    fn content_len(&self) -> (len: usize)
        ensures
            len == self.spec_content_len(),
    ;
}

/// What can be cut into parts: the atoms from `from` up to `to`.
pub trait Sliceable: HasLength + Sized {
    fn slice(&self, from: usize, to: usize) -> (part: Self)
        requires
            from < to <= self.spec_content_len(),
        ensures
            part.spec_content_len() == to - from,
    ;
}

/// What may be joined with a neighbour of its kind into one.
pub trait Mergable: Sized {
    spec fn mergable_with(&self, other: &Self) -> bool;

    fn is_mergable(&self, other: &Self) -> (mergable: bool)
        ensures
            mergable == self.mergable_with(other),
    ;
}

/// What an insertion carries.
pub trait InsertContentTrait {
    fn id(&self) -> ContentType;
}

/// The content of an insertion into a list: one value under one key. It is
/// a single atom, which cannot be cut and joins with nothing.
#[derive(Debug, PartialEq)]
pub struct ListInsertContent {
    pub key: u32,
    pub value: LoroValue,
}

impl Clone for ListInsertContent {
    fn clone(&self) -> (copy: Self)
        ensures
            copy == *self,
    {
        ListInsertContent { key: self.key, value: self.value.clone() }
    }
}

impl Mergable for ListInsertContent {
    open spec fn mergable_with(&self, other: &Self) -> bool {
        false
    }

    fn is_mergable(&self, other: &Self) -> (mergable: bool) {
        false
    }
}

impl HasLength for ListInsertContent {
    open spec fn spec_content_len(&self) -> nat {
        1
    }

    fn content_len(&self) -> (len: usize) {
        1
    }
}

impl Sliceable for ListInsertContent {
    /// The only part of a single atom is the atom itself.
    fn slice(&self, from: usize, to: usize) -> (part: Self)
        ensures
            part == *self,
    {
        self.clone()
    }
}

impl InsertContentTrait for ListInsertContent {
    fn id(&self) -> (kind: ContentType)
        ensures
            kind == ContentType::Mapping,
    {
        ContentType::Mapping
    }
}

} // verus!
