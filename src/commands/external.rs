use vstd::prelude::*;

verus! {

/// Programs found on the search path.
pub struct ExtCommand;

impl ExtCommand {
    /// Whether a directory entry can be run: a regular file with at least one
    /// execute permission bit (owner, group or other) set in `mode`.
    pub fn is_runnable(is_file: bool, mode: u32) -> (r: bool)
        ensures
            r == (is_file && mode & 0o111 != 0),
    {
        is_file && mode & 0o111 != 0
    }
}

} // verus!
