use vstd::prelude::*;

verus! {

/// The ways in which an operation on a tree can fail.
#[derive(Debug, Clone, Copy, PartialEq, Eq, Structural)]
pub enum TreeError {
    /// A child was to be attached to a name that is not registered.
    UnknownParent,
    /// A node was to be inserted under a name that is already registered.
    DuplicateNode,
    /// A handle beyond the arena's size was accessed.
    OutOfBounds,
    /// A traversal was asked to start at an unregistered name.
    StartNotFound,
    /// The parent of a root was asked for.
    NoParent,
}

impl TreeError {
    /// A short human-readable description of the error.
    pub fn message(&self) -> (r: &'static str)
        ensures
            *self == TreeError::DuplicateNode ==> r@ == "Node exists already"@,
            *self == TreeError::StartNotFound ==> r@ == "Start node not found."@,
            *self == TreeError::OutOfBounds ==> r@ == "Access out of bounds!"@,
            *self == TreeError::NoParent ==> r@ == "Node has no parent"@,
            *self == TreeError::UnknownParent ==> r@ == "Parent node not found"@,
    {
        match self {
            TreeError::UnknownParent => "Parent node not found",
            TreeError::DuplicateNode => "Node exists already",
            TreeError::OutOfBounds => "Access out of bounds!",
            TreeError::StartNotFound => "Start node not found.",
            TreeError::NoParent => "Node has no parent",
        }
    }
}

} // verus!
