//! Errors reported while routes are being registered.

use vstd::prelude::*;

verus! {

/// Why a route pattern could not be compiled or added to a tree.
#[derive(Clone, Copy, Debug, PartialEq, Eq, Structural)]
pub enum CompileError {
    /// The pattern is empty, does not start with `/`, holds an empty segment,
    /// or a parameter or wildcard name is not an identifier.
    InvalidSyntax,
    /// One name is bound twice in the same pattern.
    DuplicateParam,
    /// A wildcard is followed by further segments.
    WildcardNotLast,
    /// The tree already binds another name, or another constraint, at the
    /// same position.
    ConflictingRoute,
    /// The tree already holds a route with the same pattern.
    DuplicateRoute,
}

impl CompileError {
    /// The name of the variant.
    pub fn name(&self) -> (s: &'static str)
        ensures
            s@ == (match *self {
                CompileError::InvalidSyntax => "InvalidSyntax"@,
                CompileError::DuplicateParam => "DuplicateParam"@,
                CompileError::WildcardNotLast => "WildcardNotLast"@,
                CompileError::ConflictingRoute => "ConflictingRoute"@,
                CompileError::DuplicateRoute => "DuplicateRoute"@,
            }),
    {
        match self {
            CompileError::InvalidSyntax => "InvalidSyntax",
            CompileError::DuplicateParam => "DuplicateParam",
            CompileError::WildcardNotLast => "WildcardNotLast",
            CompileError::ConflictingRoute => "ConflictingRoute",
            CompileError::DuplicateRoute => "DuplicateRoute",
        }
    }
}

} // verus!
