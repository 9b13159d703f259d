use vstd::prelude::*;

verus! {

/// Why an address text was rejected.
#[derive(Clone, Copy, Debug, PartialEq, Eq, Structural)]
pub enum SyntaxError {
    /// A segment between two separators is empty.
    EmptyComponent,
    /// The text holds a different number of `{` and `}`.
    MismatchedBraces,
    /// A plain segment holds a brace.
    InvalidCharacter,
    /// `..` was applied with no segment left to remove.
    ParentUnderflow,
    /// A concrete address text does not start at the root.
    NotAbsolute,
}

/// Why a dynamic address could not be expanded against a tree.
#[derive(Clone, Copy, Debug, PartialEq, Eq, Structural)]
pub enum ResolutionError {
    /// A queried prefix names no node.
    NotFound,
    /// A queried prefix names a node that has no children to list.
    NotAContainer,
}

/// A dynamic address was converted as if it were concrete.
#[derive(Clone, Copy, Debug, PartialEq, Eq, Structural)]
pub enum ConversionError {
    InvariantViolation,
}

} // verus!
