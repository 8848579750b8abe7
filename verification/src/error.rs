use vstd::prelude::*;

verus! {

/// Why the engine refused an operation.
#[derive(Clone, Copy, Debug, PartialEq, Eq, Structural)]
pub enum DagError {
    /// A local append of no operations was asked for.
    InvalidArgument,
    /// The nodes offered to a merge do not fit onto what is known: put
    /// together, the two histories are not one well-formed history.
    InconsistentHistory,
}

impl DagError {
    pub fn message(&self) -> (text: &'static str)
        ensures
            text@ == match *self {
                DagError::InvalidArgument => "invalid argument"@,
                DagError::InconsistentHistory => "inconsistent history"@,
            },
    {
        match self {
            DagError::InvalidArgument => "invalid argument",
            DagError::InconsistentHistory => "inconsistent history",
        }
    }
}

} // verus!
