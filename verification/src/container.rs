use vstd::prelude::*;
use crate::id::ID;

verus! {

/// The kinds of container.
#[derive(Clone, Copy, Debug, PartialEq, Eq, Hash, Structural)]
pub enum ContainerType {
    Text,
    Mapping,
    List,
}

/// Names a container.
#[derive(Hash, PartialEq, Eq, Debug, Clone)]
pub enum ContainerID {
    /// A root container needs no operation to create it: it exists by its
    /// name and kind.
    Root { name: String, container_type: ContainerType },
    /// A container that the operation at the given position created.
    Normal(ID),
}

impl ContainerID {
    /// Whether this names a root container.
    pub fn is_root(&self) -> (root: bool)
        ensures
            root == (*self is Root),
    {
        match self {
            ContainerID::Root { .. } => true,
            ContainerID::Normal(_) => false,
        }
    }
}

/// A replicated container: it applies operations and offers a snapshot of
/// what they have made.
pub trait Container {
    /// What a snapshot of the container is.
    type Snapshot;

    /// What an operation on the container is.
    type Op;

    fn snapshot(&self) -> &Self::Snapshot;

    fn apply(&mut self, op: Self::Op);

    fn type_id(&self) -> ContainerType;
}

} // verus!
