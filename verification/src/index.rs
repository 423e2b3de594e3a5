//! The index: for each staged file, the hash of its contents, its size and
//! when it was last modified. Paths are compared as `Path`s are: by their
//! components.
use vstd::prelude::*;
use crate::hashing::{hash_string, object_hash};
use crate::path::{components, path_eq};

verus! {

/// A moment, as whole seconds from the Unix epoch (negative before it) and
/// the nanoseconds after that second.
#[derive(Debug, Clone, Copy, PartialEq, Eq, Structural)]
pub struct FileTime {
    pub secs: i64,
    pub nanos: u32,
}

#[derive(Debug, Clone, PartialEq)]
pub struct IndexEntry {
    pub last_modified: FileTime,
    pub hash: String,
    pub file_size: u64,
}

impl IndexEntry {
    pub fn new(hash: String, file_size: u64, last_modified: FileTime) -> (r: IndexEntry)
        ensures
            r.hash == hash,
            r.file_size == file_size,
            r.last_modified == last_modified,
    {
        IndexEntry { hash, file_size, last_modified }
    }
}

/// `i` is the first entry whose path is the same path as `path`.
pub open spec fn is_index_position(entries: Seq<(String, IndexEntry)>, path: Seq<char>, i: int) -> bool {
    &&& 0 <= i < entries.len()
    &&& components(entries[i].0@) == components(path)
    &&& forall|j: int| 0 <= j < i ==> components(entries[j].0@) != components(path)
}

/// The entry of the index for `path`, if any.
pub open spec fn index_position(entries: Seq<(String, IndexEntry)>, path: Seq<char>) -> Option<int> {
    if exists|i: int| 0 <= i < entries.len() && components(entries[i].0@) == components(path) {
        Some(choose|i: int| is_index_position(entries, path, i))
    } else {
        None
    }
}

proof fn lemma_least_position(entries: Seq<(String, IndexEntry)>, path: Seq<char>, k: int)
    requires
        0 <= k < entries.len(),
        components(entries[k].0@) == components(path),
    ensures
        exists|i: int| is_index_position(entries, path, i),
    decreases k,
{
    if exists|j: int| 0 <= j < k && components(entries[j].0@) == components(path) {
        let j = choose|j: int| 0 <= j < k && components(entries[j].0@) == components(path);
        lemma_least_position(entries, path, j);
    } else {
        assert(is_index_position(entries, path, k));
    }
}

pub proof fn lemma_index_position(entries: Seq<(String, IndexEntry)>, path: Seq<char>)
    ensures
        match index_position(entries, path) {
            Some(i) => is_index_position(entries, path, i),
            None => forall|j: int|
                0 <= j < entries.len() ==> components(entries[j].0@) != components(path),
        },
{
    if exists|i: int| 0 <= i < entries.len() && components(entries[i].0@) == components(path) {
        let k = choose|i: int| 0 <= i < entries.len() && components(entries[i].0@) == components(path);
        lemma_least_position(entries, path, k);
    }
}

pub proof fn lemma_index_position_unique(entries: Seq<(String, IndexEntry)>, path: Seq<char>, i: int)
    requires
        is_index_position(entries, path, i),
    ensures
        index_position(entries, path) == Some(i),
{
    lemma_index_position(entries, path);
    let k = index_position(entries, path)->0;
    if k < i {
        assert(components(entries[k].0@) != components(path));
    } else if i < k {
        assert(components(entries[i].0@) != components(path));
    }
}

fn find_entry(entries: &Vec<(String, IndexEntry)>, file_path: &str) -> (r: Option<usize>)
    ensures
        r matches Some(k) ==> index_position(entries@, file_path@) == Some(k as int) && k
            < entries@.len(),
        r is None ==> index_position(entries@, file_path@) is None,
{
    let mut i: usize = 0;
    while i < entries.len()
        invariant
            i <= entries@.len(),
            forall|j: int| 0 <= j < i ==> components(entries@[j].0@) != components(file_path@),
        decreases entries@.len() - i,
    {
        if path_eq(entries[i].0.as_str(), file_path) {
            proof {
                lemma_index_position_unique(entries@, file_path@, i as int);
            }
            return Some(i);
        }
        i = i + 1;
    }
    proof {
        lemma_index_position(entries@, file_path@);
    }
    None
}

/// No path has two entries.
pub open spec fn keys_unique(entries: Seq<(String, IndexEntry)>) -> bool {
    forall|i: int, j: int|
        0 <= i < entries.len() && 0 <= j < entries.len() && i != j ==> components(entries[i].0@)
            != components(entries[j].0@)
}

/// The index already holds the file at `path` as it is now: its entry has the
/// file's modification time, or else the hash of its contents.
pub open spec fn in_index(
    entries: Seq<(String, IndexEntry)>,
    path: Seq<char>,
    last_modified: FileTime,
    contents: Seq<char>,
) -> bool {
    match index_position(entries, path) {
        None => false,
        Some(i) => entries[i].1.last_modified == last_modified || entries[i].1.hash@
            == object_hash(contents),
    }
}

/// Whether the index holds an entry for `file_path` with the modification time
/// `last_modified`: then it holds the file as it is now, whatever its contents,
/// and they need not be read.
pub fn is_unchanged_in_index(
    entries: &Vec<(String, IndexEntry)>,
    file_path: &str,
    last_modified: FileTime,
) -> (r: bool)
    ensures
        r == (index_position(entries@, file_path@) matches Some(i)
            && entries@[i].1.last_modified == last_modified),
        r ==> forall|contents: Seq<char>| #[trigger]
            in_index(entries@, file_path@, last_modified, contents),
{
    match find_entry(entries, file_path) {
        None => false,
        Some(i) => entries[i].1.last_modified == last_modified,
    }
}

/// Whether the index holds the file at `file_path` as it is now, given the
/// file's modification time and contents. The hash of the contents is computed
/// only when the entry's modification time differs, and is then handed back in
/// `computed_hash`.
pub fn is_file_in_index(
    entries: &Vec<(String, IndexEntry)>,
    file_path: &str,
    last_modified: FileTime,
    file_contents: &str,
    computed_hash: &mut Option<String>,
) -> (r: bool)
    ensures
        r == in_index(entries@, file_path@, last_modified, file_contents@),
        match index_position(entries@, file_path@) {
            Some(i) if entries@[i].1.last_modified != last_modified => *final(computed_hash) matches Some(
                h,
            ) && h@ == object_hash(file_contents@),
            _ => *final(computed_hash) == *old(computed_hash),
        },
{
    let i = match find_entry(entries, file_path) {
        None => {
            return false;
        },
        Some(i) => i,
    };
    let entry = &entries[i].1;
    if entry.last_modified == last_modified {
        return true;
    }
    let hash = hash_string(file_contents);
    let same = hash == entry.hash;
    *computed_hash = Some(hash);
    same
}

/// Stages the file at `file_path`, given its contents, size and modification
/// time: unless the index already holds it as it is now, its entry is set to the
/// hash of its contents, its size and its time, added at the end when the index
/// had none for that path. Returns whether the index changed.
pub fn stage_file(
    entries: &mut Vec<(String, IndexEntry)>,
    file_path: &str,
    file_contents: &str,
    file_size: u64,
    last_modified: FileTime,
) -> (r: bool)
    ensures
        r == !in_index(old(entries)@, file_path@, last_modified, file_contents@),
        !r ==> *final(entries) == *old(entries),
        r ==> match index_position(old(entries)@, file_path@) {
            Some(i) => {
                &&& final(entries)@.len() == old(entries)@.len()
                &&& final(entries)@[i].0 == old(entries)@[i].0
                &&& forall|j: int|
                    0 <= j < old(entries)@.len() && j != i ==> #[trigger] final(entries)@[j]
                        == old(entries)@[j]
                &&& final(entries)@[i].1.hash@ == object_hash(file_contents@)
                &&& final(entries)@[i].1.file_size == file_size
                &&& final(entries)@[i].1.last_modified == last_modified
            },
            None => {
                &&& final(entries)@.len() == old(entries)@.len() + 1
                &&& final(entries)@.drop_last() == old(entries)@
                &&& final(entries)@.last().0@ == file_path@
                &&& final(entries)@.last().1.hash@ == object_hash(file_contents@)
                &&& final(entries)@.last().1.file_size == file_size
                &&& final(entries)@.last().1.last_modified == last_modified
            },
        },
        in_index(final(entries)@, file_path@, last_modified, file_contents@),
        keys_unique(old(entries)@) ==> keys_unique(final(entries)@),
{
    let mut computed_hash: Option<String> = None;
    if is_file_in_index(entries, file_path, last_modified, file_contents, &mut computed_hash) {
        return false;
    }
    let computed_hash = match computed_hash {
        Some(h) => h,
        None => hash_string(file_contents),
    };
    let entry = IndexEntry::new(computed_hash, file_size, last_modified);
    match find_entry(entries, file_path) {
        Some(i) => {
            let (key, _) = entries.remove(i);
            entries.insert(i, (key, entry));
            proof {
                let e = entries@;
                let o = old(entries)@;
                assert(e == o.update(i as int, (o[i as int].0, entry)));
                assert(is_index_position(e, file_path@, i as int)) by {
                    lemma_index_position(o, file_path@);
                }
                lemma_index_position_unique(e, file_path@, i as int);
            }
        },
        None => {
            let key = file_path.to_owned();
            entries.push((key, entry));
            proof {
                let e = entries@;
                let o = old(entries)@;
                lemma_index_position(o, file_path@);
                assert(e.drop_last() == o);
                assert(is_index_position(e, file_path@, o.len() as int));
                assert forall|a: int, b: int|
                    0 <= a < e.len() && 0 <= b < e.len() && a != b && keys_unique(o) implies components(
                    e[a].0@,
                ) != components(e[b].0@) by {
                    if a < o.len() {
                        assert(e[a] == o[a]);
                    }
                    if b < o.len() {
                        assert(e[b] == o[b]);
                    }
                }
                lemma_index_position_unique(e, file_path@, o.len() as int);
            }
        },
    }
    true
}

/// The path and hash of each entry, in order.
pub open spec fn staged_pairs(entries: Seq<(String, IndexEntry)>) -> Seq<(String, String)> {
    entries.map_values(|e: (String, IndexEntry)| (e.0, e.1.hash))
}

pub fn get_staged_hashes(entries: &Vec<(String, IndexEntry)>) -> (r: Vec<(String, String)>)
    ensures
        r@ == staged_pairs(entries@),
{
    let mut hashes: Vec<(String, String)> = Vec::new();
    let mut i: usize = 0;
    while i < entries.len()
        invariant
            i <= entries@.len(),
            hashes@ == staged_pairs(entries@.take(i as int)),
        decreases entries@.len() - i,
    {
        let (file_path, entry) = &entries[i];
        hashes.push((file_path.clone(), entry.hash.clone()));
        assert(hashes@ =~= staged_pairs(entries@.take(i + 1)));
        i = i + 1;
    }
    assert(entries@.take(entries@.len() as int) == entries@);
    hashes
}

} // verus!
