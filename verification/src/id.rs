use vstd::prelude::*;

verus! {

/// Identifier of a replica.
pub type ClientID = u64;

/// Position of an operation within one replica's own sequence.
pub type Counter = u32;

/// Logical clock value.
pub type Lamport = u64;

/// Position of one operation: the replica that made it and its place in that
/// replica's sequence.
#[derive(Clone, Copy, Debug, PartialEq, Eq, Hash, Structural)]
pub struct ID {
    pub client_id: ClientID,
    pub counter: Counter,
}

impl ID {
    pub fn new(client_id: ClientID, counter: Counter) -> (id: ID)
        ensures
            id == (ID { client_id, counter }),
    {
        ID { client_id, counter }
    }

    /// Whether this position comes before `other` on the same replica.
    /// Positions of one replica are ordered by their counters; positions of
    /// two replicas are not ordered by their values at all.
    pub fn precedes(&self, other: &ID) -> (before: bool)
        ensures
            before == (self.client_id == other.client_id && self.counter < other.counter),
    {
        self.client_id == other.client_id && self.counter < other.counter
    }
}

} // verus!
