//! Where a repository keeps its parts, relative to the working directory.
use vstd::prelude::*;

verus! {

pub const CHRON_DIR_PATH: &'static str = ".chronicle";
pub const IGNORE_PATH: &'static str = ".chronignore";
pub const CONFIG_PATH: &'static str = ".chronicle/config";
pub const REFS_PATH: &'static str = ".chronicle/refs";
pub const HEADS_PATH: &'static str = ".chronicle/refs/heads";
pub const REMOTES_PATH: &'static str = ".chronicle/refs/remotes";
pub const TAGS_PATH: &'static str = ".chronicle/refs/tags";
pub const HEAD_PATH: &'static str = ".chronicle/HEAD";
pub const OBJECTS_PATH: &'static str = ".chronicle/objects";
pub const INDEX_PATH: &'static str = ".chronicle/index";

/// The characters of `OBJECTS_PATH`.
pub open spec fn objects_path() -> Seq<char> {
    seq!['.', 'c', 'h', 'r', 'o', 'n', 'i', 'c', 'l', 'e', '/', 'o', 'b', 'j', 'e', 'c', 't', 's']
}

pub fn objects_dir() -> (s: &'static str)
    ensures
        s@ == objects_path(),
{
    proof {
        reveal_strlit(".chronicle/objects");
    }
    OBJECTS_PATH
}

} // verus!
