//! The closed set of reasons a compilation aborts.  Every kind is fatal at
//! the point of detection: no partial output is produced and no edit is
//! silently skipped.

use vstd::prelude::*;

verus! {

/// Why a compilation aborted.  The payload names the offending file, symbol
/// or directive.
#[derive(Debug, Clone, PartialEq, Eq)]
pub enum CompileError {
    /// A function or class scope was unterminated at end of file, or a
    /// matched declaration's name could not be resolved.
    StructuralParse(String),
    /// Unbalanced quotes or parentheses in a directive's argument list, a
    /// missing or malformed directive parameter, or a directive with no
    /// preceding namespace declaration.
    DirectiveSyntax(String),
    /// A mixin's locator has no path divider, names a file that is not in
    /// the file table, or matches no source mapping.
    UnresolvedTarget(String),
    /// A computed insertion or removal line lies outside its file.
    LineOutOfRange(String),
}

impl CompileError {
    /// The diagnostic payload carried by the error.
    pub fn detail(&self) -> (r: &String)
        ensures
            r@ == match self {
                CompileError::StructuralParse(s) => s@,
                CompileError::DirectiveSyntax(s) => s@,
                CompileError::UnresolvedTarget(s) => s@,
                CompileError::LineOutOfRange(s) => s@,
            },
    {
        match self {
            CompileError::StructuralParse(s) => s,
            CompileError::DirectiveSyntax(s) => s,
            CompileError::UnresolvedTarget(s) => s,
            CompileError::LineOutOfRange(s) => s,
        }
    }
}

} // verus!
