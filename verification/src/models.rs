//! The records the repository keeps: commit metadata, index entries, the
//! undo log, and the status of the working tree.

use vstd::prelude::*;

verus! {

/// What the repository remembers of a commit besides its object.
#[derive(Debug, PartialEq, Eq)]
pub struct CommitMeta {
    pub parent_hashes: Vec<crate::hash::Hash>,
    pub tree_hash: crate::hash::Hash,
    pub timestamp: u64,
    pub author: String,
    pub message: String,
}

/// A staged file: its blob and the size and modification time it had on
/// disk when it was staged.
#[derive(Debug, PartialEq, Eq, Clone, Copy)]
pub struct IndexEntry {
    pub hash: crate::hash::Hash,
    pub size: u64,
    pub mtime: u64,
}

impl View for IndexEntry {
    type V = (Seq<u8>, u64, u64);

    open spec fn view(&self) -> (Seq<u8>, u64, u64) {
        (self.hash@, self.size, self.mtime)
    }
}

/// How to take back one action: what the undo log records.
#[derive(Debug, PartialEq, Eq)]
pub enum UndoAction {
    /// A path was staged; undoing puts back the entry it had before, or
    /// removes it when it had none.
    Unstage { path: String, old_entry: Option<IndexEntry> },
    /// A path was unstaged; undoing removes it from the index.
    Stage { path: String, entry: IndexEntry },
    /// A commit moved the head from `old_head` to `new_head`.
    RevertCommit { old_head: Option<crate::hash::Hash>, new_head: crate::hash::Hash },
    /// A checkout moved the head from `old_head` to `new_head`.
    Checkout { old_head: Option<crate::hash::Hash>, new_head: crate::hash::Hash },
    /// A bookmark was moved from `old_hash` to `new_hash`.
    MoveBookmark { name: String, old_hash: Option<crate::hash::Hash>, new_hash: crate::hash::Hash },
}

/// One entry of the undo log.
#[derive(Debug, PartialEq, Eq)]
pub struct TransactionRecord {
    pub timestamp: u64,
    pub action: UndoAction,
}

/// How a path differs between two states.
#[derive(Debug, Clone, Copy, PartialEq, Eq, Structural)]
pub enum FileState {
    New,
    Modified,
    Deleted,
}

/// The state of the working tree: staged changes (index against the head
/// commit), unstaged changes (disk against the index), and untracked files
/// in sorted order. Each path occurs at most once in each list.
#[derive(Debug, PartialEq, Eq)]
pub struct RepoStatus {
    pub staged: Vec<(String, FileState)>,
    pub unstaged: Vec<(String, FileState)>,
    pub untracked: Vec<String>,
}

impl RepoStatus {
    /// An empty status.
    pub fn new() -> (s: RepoStatus)
        ensures
            s.staged@.len() == 0,
            s.unstaged@.len() == 0,
            s.untracked@.len() == 0,
    {
        RepoStatus { staged: Vec::new(), unstaged: Vec::new(), untracked: Vec::new() }
    }
}

impl Default for RepoStatus {
    /// An empty status.
    fn default() -> (s: RepoStatus)
        ensures
            s.staged@.len() == 0,
            s.unstaged@.len() == 0,
            s.untracked@.len() == 0,
    {
        RepoStatus::new()
    }
}

} // verus!
