//! The errors that the tree handle reports.

use vstd::prelude::*;

verus! {

/// Why an operation on an [`crate::AvlTree`] did not succeed.
#[derive(Debug, PartialEq, Eq, Clone, Copy, Structural)]
pub enum TreeError {
    /// The operation needs at least one node and the tree has none.
    EmptyTree,
    /// No entry of the tree is order-equivalent to the requested value.
    NotFound,
    /// The node engine refused the value as already present.
    DuplicateInsert,
    /// An entry was removed that is order-equivalent to the requested value
    /// but not equal to it. The tree stays without that entry.
    MismatchedRemoval,
    /// The operation fails on every input.
    AlwaysFails,
}

impl TreeError {
    /// The text of each error.
    pub open spec fn message_spec(self) -> Seq<char> {
        match self {
            TreeError::EmptyTree => "You don't have any node in the tree"@,
            TreeError::NotFound => "The value was not found"@,
            TreeError::DuplicateInsert => "Can not insert same value twice"@,
            TreeError::MismatchedRemoval => "ERROR ! The value removed was not the correct one."@,
            TreeError::AlwaysFails => "Oups, I always fail"@,
        }
    }

    /// A sentence for a person to read.
    pub fn message(&self) -> (text: &'static str)
        ensures
            text@ == self.message_spec(),
    {
        match self {
            TreeError::EmptyTree => "You don't have any node in the tree",
            TreeError::NotFound => "The value was not found",
            TreeError::DuplicateInsert => "Can not insert same value twice",
            TreeError::MismatchedRemoval => "ERROR ! The value removed was not the correct one.",
            TreeError::AlwaysFails => "Oups, I always fail",
        }
    }
}

} // verus!
