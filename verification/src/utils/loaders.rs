//! Names of files below the project root.
use vstd::prelude::*;

verus! {

/// A path below the project root, as the command-line tools name files.
pub struct LocalPath {
    pub path: String,
}

} // verus!
