//! Where a task registry is checkpointed.

use vstd::prelude::*;

verus! {

/// A checkpoint kept in a single file. Holds the path only; nothing
/// touches the filesystem until the checkpoint is read or written.
#[derive(Debug, Clone)]
pub struct FileCheckpointStore {
    path: String,
}

impl FileCheckpointStore {
    /// The file the checkpoint lives in.
    pub closed spec fn path_spec(self) -> Seq<char> {
        self.path@
    }

    /// Point a store at `path`.
    pub fn new(path: &str) -> (s: FileCheckpointStore)
        ensures
            s.path_spec() == path@,
    {
        FileCheckpointStore { path: path.to_owned() }
    }

    /// The file the checkpoint lives in.
    pub fn path(&self) -> (p: &str)
        ensures
            p@ == self.path_spec(),
    {
        self.path.as_str()
    }
}

} // verus!
