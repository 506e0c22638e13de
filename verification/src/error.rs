//! Typed failures reported by the tree store and the selection resolver.

use vstd::prelude::*;

verus! {

/// Every way an operation on the tree can fail. A failed mutation never
/// changes the tree; callers decide whether to retry or report.
#[derive(Debug, Clone, Copy, PartialEq, Eq, Structural)]
pub enum Error {
    /// The given id has no backing record.
    NotFound,
    /// A sibling of the target already carries the requested name.
    DuplicateName,
    /// The requested name trims to the empty string.
    EmptyName,
    /// The root idea cannot be reparented.
    CannotMoveRoot,
    /// Moving the idea under the requested parent would break the tree
    /// shape: the parent lies inside the idea's own subtree.
    WouldCreateCycle,
    /// A number was required but the text is not a valid number.
    ParseError,
    /// A child index lies outside the visible children of the current idea.
    OutOfRange,
    /// No child name matches the given hint.
    NoMatch,
    /// More than one child name matches the given hint.
    AmbiguousMatch,
    /// The durable store handed back records that do not form a
    /// well-shaped tree.
    StorageIO,
}

impl Error {
    /// A short human-readable description, for callers that print errors.
    pub fn message(&self) -> &'static str {
        match self {
            Error::NotFound => "no Idea with that id exists",
            Error::DuplicateName => "the parent already has a child with that name",
            Error::EmptyName => "can't make an Idea without a name",
            Error::CannotMoveRoot => "cannot move the root Idea",
            Error::WouldCreateCycle => "cannot move an Idea into its own subtree",
            Error::ParseError => "expected a number",
            Error::OutOfRange => "the current Idea has no child at that index",
            Error::NoMatch => "no children match that name hint",
            Error::AmbiguousMatch => "multiple children match that name hint",
            Error::StorageIO => "the stored records do not form a tree",
        }
    }
}

} // verus!
