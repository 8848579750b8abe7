use vstd::prelude::*;
use crate::container::ContainerID;

verus! {

/// One step of a path to a container: a key of a map, or a place in a
/// sequence.
#[derive(Debug, Clone, PartialEq, Eq)]
pub enum Index {
    Key(String),
    SeqIndex(usize),
}

/// The kinds of item in a delta.
#[derive(Clone, Copy, Debug, PartialEq, Eq, Structural)]
pub enum DeltaType {
    Retain,
    Insert,
    Delete,
}

/// What an item of a delta carries beside its value.
pub trait Meta: Sized {
    /// Whether `other` may be taken from `self`.
    spec fn can_take(&self, other: &Self) -> bool;

    /// Whether `other` may be merged into `self`.
    spec fn can_merge(&self, other: &Self) -> bool;

    fn empty() -> Self;

    fn is_empty(&self) -> bool;

    fn compose(&mut self, other: &Self, type_pair: (DeltaType, DeltaType));

    /// Takes from `self` the part that `other` stands for, and gives it.
    fn take(&mut self, other: &Self) -> Self
        requires
            old(self).can_take(other),
    ;

    fn is_mergeable(&self, other: &Self) -> bool;

    /// Joins `other` onto `self`.
    fn merge(&mut self, other: &Self)
        requires
            old(self).can_merge(other),
    ;
}

/// The length of a piece of text in UTF-16 code units, where it is known.
#[derive(Clone, Copy, Debug, PartialEq)]
pub struct Utf16Meta {
    pub utf16_len: Option<usize>,
}

impl Utf16Meta {
    pub fn new(utf16_len: usize) -> (meta: Self)
        ensures
            meta.utf16_len == Some(utf16_len),
    {
        Utf16Meta { utf16_len: Some(utf16_len) }
    }

    /// The known length, 0 where none is known.
    pub open spec fn len_or_zero(self) -> int {
        match self.utf16_len {
            Some(len) => len as int,
            None => 0,
        }
    }
}

impl Default for Utf16Meta {
    fn default() -> (meta: Self)
        ensures
            meta.utf16_len is None,
    {
        Utf16Meta { utf16_len: None }
    }
}

impl Meta for Utf16Meta {
    /// A known length can give up no more than itself.
    open spec fn can_take(&self, other: &Self) -> bool {
        self.utf16_len is Some ==> other.len_or_zero() <= self.len_or_zero()
    }

    /// Two known lengths can be added where their sum is representable.
    open spec fn can_merge(&self, other: &Self) -> bool {
        self.utf16_len is Some && other.utf16_len is Some ==> self.len_or_zero()
            + other.len_or_zero() <= usize::MAX
    }

    fn empty() -> (meta: Self)
        ensures
            meta.utf16_len is None,
    {
        Utf16Meta { utf16_len: None }
    }

    fn is_empty(&self) -> (empty: bool)
        ensures
            empty == (self.utf16_len is None),
    {
        self.utf16_len.is_none()
    }

    fn compose(&mut self, other: &Self, type_pair: (DeltaType, DeltaType))
        ensures
            *final(self) == *old(self),
    {
    }

    /// A known length is shortened by the length of `other`; an unknown one
    /// stays unknown. Gives `other` back.
    fn take(&mut self, other: &Self) -> (taken: Self)
        ensures
            taken == *other,
            final(self).utf16_len == match old(self).utf16_len {
                Some(len) => Some((len - other.len_or_zero()) as usize),
                None => None,
            },
    {
        match self.utf16_len {
            Some(len) => {
                let other_len = match other.utf16_len {
                    Some(n) => n,
                    None => 0,
                };
                self.utf16_len = Some(len - other_len);
            },
            None => {},
        }
        *other
    }

    fn is_mergeable(&self, other: &Self) -> (mergeable: bool)
        ensures
            mergeable,
    {
        true
    }

    /// Two known lengths add up; where either is unknown, so is the result.
    fn merge(&mut self, other: &Self)
        ensures
            final(self).utf16_len == match (old(self).utf16_len, other.utf16_len) {
                (Some(a), Some(b)) => Some((a + b) as usize),
                _ => None,
            },
    {
        match (self.utf16_len, other.utf16_len) {
            (Some(a), Some(b)) => {
                self.utf16_len = Some(a + b);
            },
            _ => {
                self.utf16_len = None;
            },
        }
    }
}

/// What can be composed with a later value of its own kind into one.
pub trait Compose: Sized {
    fn compose(self, later: Self) -> Self;
}

/// The difference between two versions of a container, by the container's
/// kind. The deltas themselves are the caller's.
#[derive(Clone, Debug)]
pub enum Diff<L, S, T, M, N> {
    List(L),
    SeqRaw(S),
    SeqRawUtf16(S),
    Text(T),
    MapDiff(M),
    NewMap(N),
}

impl<L: Compose, S: Compose, T: Compose, M: Compose, N: Compose> Diff<L, S, T, M, N> {
    /// Whether a difference of the kind of `self` composes with one of the
    /// kind of `later`: the two are of one kind, and that kind is not the raw
    /// sequence in UTF-16 units.
    pub open spec fn composes_with(self, later: Self) -> bool {
        match (self, later) {
            (Diff::List(_), Diff::List(_)) => true,
            (Diff::SeqRaw(_), Diff::SeqRaw(_)) => true,
            (Diff::Text(_), Diff::Text(_)) => true,
            (Diff::MapDiff(_), Diff::MapDiff(_)) => true,
            (Diff::NewMap(_), Diff::NewMap(_)) => true,
            _ => false,
        }
    }

    /// `out` is a difference of the kind of `self` and `later` whose delta is
    /// one that composing their deltas gives.
    pub open spec fn is_composed(self, later: Self, out: Self) -> bool {
        match (self, later, out) {
            (Diff::List(a), Diff::List(b), Diff::List(c)) => call_ensures(L::compose, (a, b), c),
            (Diff::SeqRaw(a), Diff::SeqRaw(b), Diff::SeqRaw(c)) => call_ensures(
                S::compose,
                (a, b),
                c,
            ),
            (Diff::Text(a), Diff::Text(b), Diff::Text(c)) => call_ensures(T::compose, (a, b), c),
            (Diff::MapDiff(a), Diff::MapDiff(b), Diff::MapDiff(c)) => call_ensures(
                M::compose,
                (a, b),
                c,
            ),
            (Diff::NewMap(a), Diff::NewMap(b), Diff::NewMap(c)) => call_ensures(
                N::compose,
                (a, b),
                c,
            ),
            _ => false,
        }
    }

    /// Composes `self` with the later difference `diff`. Two differences of
    /// one kind give the difference of that kind that holds their deltas
    /// composed; otherwise `self` comes back as the error.
    pub fn compose(self, diff: Self) -> (res: Result<Self, Self>)
        ensures
            match res {
                Ok(out) => self.composes_with(diff) && self.is_composed(diff, out),
                Err(back) => !self.composes_with(diff) && back == self,
            },
    {
        match (self, diff) {
            (Diff::List(a), Diff::List(b)) => Ok(Diff::List(a.compose(b))),
            (Diff::SeqRaw(a), Diff::SeqRaw(b)) => Ok(Diff::SeqRaw(a.compose(b))),
            (Diff::Text(a), Diff::Text(b)) => Ok(Diff::Text(a.compose(b))),
            (Diff::MapDiff(a), Diff::MapDiff(b)) => Ok(Diff::MapDiff(a.compose(b))),
            (Diff::NewMap(a), Diff::NewMap(b)) => Ok(Diff::NewMap(a.compose(b))),
            (a, _) => Err(a),
        }
    }
}

impl<L: Default, S, T, M, N> Default for Diff<L, S, T, M, N> {
    /// The difference of a list that holds the default delta.
    fn default() -> (diff: Self)
        ensures
            diff matches Diff::List(delta) && call_ensures(L::default, (), delta),
    {
        Diff::List(L::default())
    }
}

/// What an observer asks for: to be called once only, for one container
/// only, or for what lies below it too.
#[derive(Clone, Debug)]
pub struct ObserverOptions {
    pub once: bool,
    pub container: Option<ContainerID>,
    pub deep: bool,
}

impl Default for ObserverOptions {
    fn default() -> (options: Self)
        ensures
            !options.once,
            options.container is None,
            !options.deep,
    {
        ObserverOptions { once: false, container: None, deep: false }
    }
}

impl ObserverOptions {
    pub fn with_container(self, container: ContainerID) -> (options: Self)
        ensures
            options.container == Some(container),
            options.once == self.once,
            options.deep == self.deep,
    {
        ObserverOptions { once: self.once, container: Some(container), deep: self.deep }
    }

    pub fn with_once(self, once: bool) -> (options: Self)
        ensures
            options.once == once,
            options.container == self.container,
            options.deep == self.deep,
    {
        ObserverOptions { once, container: self.container, deep: self.deep }
    }

    pub fn with_deep(self, deep: bool) -> (options: Self)
        ensures
            options.deep == deep,
            options.container == self.container,
            options.once == self.once,
    {
        ObserverOptions { once: self.once, container: self.container, deep }
    }

    /// The container that the observer is bound to, if it is bound to one.
    pub fn container(&self) -> (container: &Option<ContainerID>)
        ensures
            *container == self.container,
    {
        &self.container
    }

    /// Whether the observer is bound to no container, and so observes all.
    pub fn root(&self) -> (root: bool)
        ensures
            root == (self.container is None),
    {
        self.container.is_none()
    }

    pub fn deep(&self) -> (deep: bool)
        ensures
            deep == self.deep,
    {
        self.deep
    }

    pub fn once(&self) -> (once: bool)
        ensures
            once == self.once,
    {
        self.once
    }
}

} // verus!
