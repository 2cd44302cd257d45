//! Directory tree simulator: an in-memory tree of named directories, and an
//! operating-system stub that keeps a current working directory over it.

mod error;
mod names;
mod os_state;
mod paths;
mod tree;

pub use error::{is_invalid_child, DirError};
pub use names::{contains_slash, has_slash, joined, names, render, same_name, strs};
pub use os_state::OsState;
pub use paths::lemma_leaf_paths;
pub use tree::{lemma_mkdir_twice, DEnt, DTree};
