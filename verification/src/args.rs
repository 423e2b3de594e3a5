//! The commands the tool understands.
use vstd::prelude::*;

verus! {

#[derive(Debug, Clone, PartialEq)]
pub struct UserArgs {
    pub command: Commands,
}

#[derive(Debug, Clone, PartialEq)]
pub enum Commands {
    /// Initialize a chronicle repository
    Init,
    /// Stage unsaved changes
    Add {
        /// Path to directory/file to save changes from
        path: String,
    },
    /// Create a snapshot of the repository's state
    Commit { message: String },
    /// Manage branches
    Branch(BranchCommands),
    /// Prints out a decompressed version of a object file
    Cat { hash: String },
}

#[derive(Debug, Clone, PartialEq)]
pub struct BranchCommands {
    pub commands: BranchSubCommands,
}

#[derive(Debug, Clone, PartialEq)]
pub enum BranchSubCommands {
    /// Create a branch
    Create {
        /// Name of branch to create
        name: String,
    },
    /// Delete a branch
    Delete {
        /// Name of branch to delete
        name: String,
    },
}

} // verus!
