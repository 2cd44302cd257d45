//! The errors of directory interaction.
use vstd::prelude::*;

verus! {

/// Errors during directory interaction.
#[derive(Debug)]
pub enum DirError<'a> {
    /// The character `/` in component names is disallowed,
    /// to make path separators easier.
    SlashInName(&'a str),
    /// Only one subdirectory of a given name can exist in any directory.
    DirExists(&'a str),
    /// Traversal failed due to missing subdirectory.
    InvalidChild(&'a str),
}

/// Whether `e` reports the missing path component `n`.
pub open spec fn is_invalid_child(e: DirError, n: Seq<char>) -> bool {
    match e {
        DirError::InvalidChild(x) => x@ == n,
        _ => false,
    }
}

} // verus!
