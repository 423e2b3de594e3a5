//! Committing: the tree of the staged files, the tree objects that describe
//! it, and the commit object that points at its root.
use vstd::prelude::*;
use crate::path::{components, path_components};
use crate::text::{chars_of, string_of, words_view};
use crate::hashing::object_hash;
use crate::tree_node::{no_empty_dirs, well_formed, TreeNode, insert_path, lookup_file, lemma_lookup_empty, names_view,
    same_tree, lemma_same_files_same_tree};
use crate::error::ChronicleError;
use crate::objects::{ObjectFile, ObjectType, stores};
use crate::index::{IndexEntry, get_staged_hashes, staged_pairs};
use crate::objects::commit::{commit_chars, create_commit_object};
use crate::objects::tree::{TreeEntry, create_tree_object, entries_view, tree_text};

verus! {

/// The files of the tree `root` are the staged files.
pub open spec fn holds_staged(root: TreeNode, staged: Seq<(String, String)>) -> bool {
    forall|p: Seq<Seq<char>>|
        p.len() > 0 ==> #[trigger] lookup_file(root, p) == staged_hash(staged, p)
}

/// `root` is a tree of the staged files: its files are those staged, no name
/// occurs twice in a directory, and no directory is empty.
pub open spec fn tree_of_staged(root: TreeNode, staged: Seq<(String, String)>) -> bool {
    &&& holds_staged(root, staged)
    &&& well_formed(root)
    &&& no_empty_dirs(root)
}

/// The hash staged last for a path whose components are `c`, if any.
pub open spec fn staged_hash(staged: Seq<(String, String)>, c: Seq<Seq<char>>) -> Option<
    Seq<char>,
>
    decreases staged.len(),
{
    if staged.len() == 0 {
        None
    } else if components(staged.last().0@) == c {
        Some(staged.last().1@)
    } else {
        staged_hash(staged.drop_last(), c)
    }
}

/// The hash staged for a path is the one staged last under a path with the
/// same components; a path never staged has none.
pub proof fn lemma_staged_hash_is_last(staged: Seq<(String, String)>, c: Seq<Seq<char>>)
    ensures
        (staged_hash(staged, c) is None) == (forall|i: int|
            0 <= i < staged.len() ==> components(#[trigger] staged[i].0@) != c),
        staged_hash(staged, c) matches Some(h) ==> exists|i: int|
            0 <= i < staged.len() && components(#[trigger] staged[i].0@) == c && staged[i].1@ == h
                && forall|j: int| i < j < staged.len() ==> components(#[trigger] staged[j].0@) != c,
    decreases staged.len(),
{
    if staged.len() > 0 {
        let prev = staged.drop_last();
        lemma_staged_hash_is_last(prev, c);
        let n = staged.len() - 1;
        if components(staged.last().0@) == c {
            assert(components(staged[n].0@) == c);
        } else {
            assert forall|i: int| 0 <= i < n implies #[trigger] staged[i].0@ == prev[i].0@ by {}
            if staged_hash(staged, c) is None {
                assert forall|i: int| 0 <= i < staged.len() implies components(
                    #[trigger] staged[i].0@,
                ) != c by {
                    if i < n {
                        assert(components(prev[i].0@) != c);
                    }
                }
            } else {
                let h = staged_hash(staged, c)->0;
                let i = choose|i: int|
                    0 <= i < prev.len() && components(#[trigger] prev[i].0@) == c && prev[i].1@ == h
                        && forall|j: int| i < j < prev.len() ==> components(#[trigger] prev[j].0@) != c;
                assert(staged[i] == prev[i]);
                assert forall|j: int| i < j < staged.len() implies components(
                    #[trigger] staged[j].0@,
                ) != c by {
                    if j < n {
                        assert(staged[j] == prev[j]);
                    }
                }
            }
            if !(forall|i: int| 0 <= i < staged.len() ==> components(#[trigger] staged[i].0@) != c) {
                let k = choose|k: int| 0 <= k < staged.len() && components(#[trigger] staged[k].0@) == c;
                assert(k < n);
                assert(components(prev[k].0@) == c);
            }
        }
    }
}

fn strings_of(words: &Vec<Vec<char>>) -> (r: Vec<String>)
    ensures
        names_view(r@) == words_view(words@),
{
    let mut r: Vec<String> = Vec::new();
    let mut i: usize = 0;
    while i < words.len()
        invariant
            i <= words@.len(),
            names_view(r@) == words_view(words@.take(i as int)),
        decreases words@.len() - i,
    {
        let s = string_of(words[i].as_slice());
        let ghost r0 = r@;
        r.push(s);
        assert(r@ == r0.push(s));
        assert(words_view(words@.take(i as int)).len() == i);
        assert(r0.len() == i);
        assert(names_view(r@).len() == i + 1);
        assert(names_view(r@)[i as int] == words@[i as int]@);
        assert forall|j: int| 0 <= j < i + 1 implies names_view(r@)[j] == words_view(
            words@.take(i + 1),
        )[j] by {
            if j < i {
                assert(names_view(r0)[j] == words_view(words@.take(i as int))[j]);
            }
        }
        assert(names_view(r@) =~= words_view(words@.take(i + 1)));
        i = i + 1;
    }
    assert(words@.take(words@.len() as int) == words@);
    r
}

/// The tree of the staged files: each `(path, hash)` puts a file with that
/// hash at the path, later pairs overriding earlier ones for the same path.
pub fn gen_tree_structure(staged_file_hashes: &Vec<(String, String)>) -> (root: TreeNode)
    ensures
        tree_of_staged(root, staged_file_hashes@),
{
    let mut root = TreeNode::new();
    let mut i: usize = 0;
    proof {
        assert forall|c: Seq<Seq<char>>| c.len() > 0 implies #[trigger] lookup_file(root, c)
            == staged_hash(staged_file_hashes@.take(0), c) by {
            lemma_lookup_empty(root, c);
        }
    }
    while i < staged_file_hashes.len()
        invariant
            i <= staged_file_hashes@.len(),
            well_formed(root),
            no_empty_dirs(root),
            forall|c: Seq<Seq<char>>|
                c.len() > 0 ==> #[trigger] lookup_file(root, c) == staged_hash(
                    staged_file_hashes@.take(i as int),
                    c,
                ),
        decreases staged_file_hashes@.len() - i,
    {
        let (file_path, hash) = &staged_file_hashes[i];
        let comps = path_components(chars_of(file_path.as_str()).as_slice());
        let names = strings_of(&comps);
        let ghost prev = staged_file_hashes@.take(i as int);
        let ghost next = staged_file_hashes@.take(i + 1);
        assert(next.drop_last() == prev);
        assert(next.last() == staged_file_hashes@[i as int]);
        if names.len() > 0 {
            let ghost r0 = root;
            insert_path(&mut root, &names, 0, hash);
            proof {
                assert(names_view(names@).skip(0) == names_view(names@));
                assert forall|c: Seq<Seq<char>>| c.len() > 0 implies #[trigger] lookup_file(
                    root,
                    c,
                ) == staged_hash(next, c) by {
                    assert(lookup_file(r0, c) == staged_hash(prev, c));
                }
            }
        } else {
            proof {
                assert forall|c: Seq<Seq<char>>| c.len() > 0 implies #[trigger] lookup_file(
                    root,
                    c,
                ) == staged_hash(next, c) by {
                    assert(components(file_path@) != c);
                }
            }
        }
        i = i + 1;
    }
    assert(staged_file_hashes@.take(staged_file_hashes@.len() as int) == staged_file_hashes@);
    assert(holds_staged(root, staged_file_hashes@));
    root
}

/// Trees of staged files that give every path the same hash compare equal,
/// whatever order the files were staged in.
pub proof fn lemma_trees_of_same_staged_files(
    a: TreeNode,
    s1: Seq<(String, String)>,
    b: TreeNode,
    s2: Seq<(String, String)>,
)
    requires
        tree_of_staged(a, s1),
        tree_of_staged(b, s2),
        forall|p: Seq<Seq<char>>| p.len() > 0 ==> #[trigger] staged_hash(s1, p) == staged_hash(s2, p),
    ensures
        same_tree(a, b),
{
    assert forall|c: Seq<Seq<char>>| #[trigger] lookup_file(a, c) == lookup_file(b, c) by {
        if c.len() > 0 {
            assert(staged_hash(s1, c) == staged_hash(s2, c));
        }
    }
    lemma_same_files_same_tree(a, b);
}

/// The entries of the tree object for `node`: one per subdirectory, naming the
/// hash of that subdirectory's tree, then one per file.
pub open spec fn node_entries(node: TreeNode) -> Seq<(ObjectType, Seq<char>, Seq<char>)> {
    subdir_entries(node, node.subdirs@.len() as nat) + file_entries(node.files@)
}

pub open spec fn file_entries(files: Seq<(String, String)>) -> Seq<(ObjectType, Seq<char>, Seq<char>)> {
    files.map_values(|f: (String, String)| (ObjectType::Blob, f.0@, f.1@))
}

/// The hash of the tree object for `node`.
pub open spec fn tree_hash(node: TreeNode) -> Seq<char>
    decreases node, node.subdirs@.len() + 1,
{
    object_hash(
        tree_text(
            subdir_entries(node, node.subdirs@.len() as nat) + file_entries(node.files@),
        ),
    )
}

/// The entries of the first `k` subdirectories of `node`.
pub open spec fn subdir_entries(node: TreeNode, k: nat) -> Seq<
    (ObjectType, Seq<char>, Seq<char>),
>
    decreases node, k,
{
    if k == 0 || k > node.subdirs@.len() {
        seq![]
    } else {
        subdir_entries(node, (k - 1) as nat).push(
            (
                ObjectType::Tree,
                node.subdirs@[k - 1].0@,
                tree_hash(node.subdirs@[k - 1].1),
            ),
        )
    }
}

proof fn lemma_subdir_entries(node: TreeNode, k: nat)
    requires
        k <= node.subdirs@.len(),
    ensures
        subdir_entries(node, k).len() == k,
        forall|j: int|
            0 <= j < k ==> #[trigger] subdir_entries(node, k)[j] == (
                ObjectType::Tree,
                node.subdirs@[j].0@,
                tree_hash(node.subdirs@[j].1),
            ),
    decreases k,
{
    if k > 0 {
        lemma_subdir_entries(node, (k - 1) as nat);
    }
}

/// The tree object of a directory has one entry per subdirectory, in order,
/// naming it and the hash of its tree, then one blob entry per file, in order,
/// naming it and its hash; it is the last tree object written for the
/// directory, and its hash is the directory's tree hash.
pub proof fn lemma_node_entries(node: TreeNode)
    ensures
        node_entries(node).len() == node.subdirs@.len() + node.files@.len(),
        forall|k: int|
            0 <= k < node.subdirs@.len() ==> #[trigger] node_entries(node)[k] == (
                ObjectType::Tree,
                node.subdirs@[k].0@,
                tree_hash(node.subdirs@[k].1),
            ),
        forall|i: int|
            0 <= i < node.files@.len() ==> #[trigger] node_entries(node)[node.subdirs@.len() + i]
                == (ObjectType::Blob, node.files@[i].0@, node.files@[i].1@),
        tree_object_texts(node).last() == tree_text(node_entries(node)),
        tree_hash(node) == object_hash(tree_text(node_entries(node))),
{
    let n = node.subdirs@.len();
    lemma_subdir_entries(node, n as nat);
    let s = subdir_entries(node, n as nat);
    let f = file_entries(node.files@);
    assert(f.len() == node.files@.len());
    assert forall|k: int| 0 <= k < n implies #[trigger] node_entries(node)[k] == (
        ObjectType::Tree,
        node.subdirs@[k].0@,
        tree_hash(node.subdirs@[k].1),
    ) by {
        assert(node_entries(node)[k] == s[k]);
    }
    assert forall|i: int| 0 <= i < node.files@.len() implies #[trigger] node_entries(node)[n + i]
        == (ObjectType::Blob, node.files@[i].0@, node.files@[i].1@) by {
        assert(node_entries(node)[n + i] == f[i]);
    }
}

/// The texts of the tree objects for `node` and all directories below it, each
/// directory's after those of its subdirectories.
pub open spec fn tree_object_texts(node: TreeNode) -> Seq<Seq<char>>
    decreases node, node.subdirs@.len() + 1,
{
    subdir_object_texts(node, node.subdirs@.len() as nat).push(tree_text(node_entries(node)))
}

pub open spec fn subdir_object_texts(node: TreeNode, k: nat) -> Seq<Seq<char>>
    decreases node, k,
{
    if k == 0 || k > node.subdirs@.len() {
        seq![]
    } else {
        subdir_object_texts(node, (k - 1) as nat) + tree_object_texts(node.subdirs@[k - 1].1)
    }
}

/// The names of the directories below `node`, each announced after everything
/// below it.
pub open spec fn committed_dirs(node: TreeNode) -> Seq<Seq<char>>
    decreases node, node.subdirs@.len() + 1,
{
    subdir_dirs(node, node.subdirs@.len() as nat)
}

pub open spec fn subdir_dirs(node: TreeNode, k: nat) -> Seq<Seq<char>>
    decreases node, k,
{
    if k == 0 || k > node.subdirs@.len() {
        seq![]
    } else {
        (subdir_dirs(node, (k - 1) as nat) + committed_dirs(node.subdirs@[k - 1].1)).push(
            node.subdirs@[k - 1].0@,
        )
    }
}

proof fn lemma_subdir_texts_cover(node: TreeNode, k: nat)
    requires
        k <= node.subdirs@.len(),
    ensures
        forall|j: int, t: Seq<char>|
            0 <= j < k && #[trigger] tree_object_texts(node.subdirs@[j].1).contains(t)
                ==> subdir_object_texts(node, k).contains(t),
        forall|j: int|
            0 <= j < k ==> #[trigger] subdir_dirs(node, k).contains(node.subdirs@[j].0@),
    decreases k,
{
    if k > 0 {
        lemma_subdir_texts_cover(node, (k - 1) as nat);
        let prev = subdir_object_texts(node, (k - 1) as nat);
        let last = tree_object_texts(node.subdirs@[k - 1].1);
        assert forall|j: int, t: Seq<char>|
            0 <= j < k && #[trigger] tree_object_texts(node.subdirs@[j].1).contains(t) implies
            subdir_object_texts(node, k).contains(t) by {
            if j < k - 1 {
                assert(prev.contains(t));
                let m = choose|m: int| 0 <= m < prev.len() && prev[m] == t;
                assert((prev + last)[m] == t);
            } else {
                let m = choose|m: int| 0 <= m < last.len() && last[m] == t;
                assert((prev + last)[prev.len() + m] == t);
            }
        }
        let pd = subdir_dirs(node, (k - 1) as nat) + committed_dirs(node.subdirs@[k - 1].1);
        assert forall|j: int| 0 <= j < k implies #[trigger] subdir_dirs(node, k).contains(
            node.subdirs@[j].0@,
        ) by {
            if j < k - 1 {
                let pd0 = subdir_dirs(node, (k - 1) as nat);
                assert(pd0.contains(node.subdirs@[j].0@));
                let m = choose|m: int| 0 <= m < pd0.len() && pd0[m] == node.subdirs@[j].0@;
                assert(pd.push(node.subdirs@[k - 1].0@)[m] == node.subdirs@[j].0@);
            } else {
                assert(pd.push(node.subdirs@[k - 1].0@)[pd.len() as int] == node.subdirs@[j].0@);
            }
        }
    }
}

/// Committing a directory writes a tree object for it and every tree object
/// of each of its subdirectories, and announces every subdirectory by name.
pub proof fn lemma_tree_objects_cover_subdirs(node: TreeNode)
    ensures
        tree_object_texts(node).contains(tree_text(node_entries(node))),
        forall|k: int, t: Seq<char>|
            0 <= k < node.subdirs@.len() && #[trigger] tree_object_texts(
                node.subdirs@[k].1,
            ).contains(t) ==> tree_object_texts(node).contains(t),
        forall|k: int|
            0 <= k < node.subdirs@.len() ==> #[trigger] committed_dirs(node).contains(
                node.subdirs@[k].0@,
            ),
{
    let n = node.subdirs@.len() as nat;
    lemma_subdir_texts_cover(node, n);
    let sub = subdir_object_texts(node, n);
    let all = tree_object_texts(node);
    assert(all == sub.push(tree_text(node_entries(node))));
    assert(all[sub.len() as int] == tree_text(node_entries(node)));
    assert forall|k: int, t: Seq<char>|
        0 <= k < node.subdirs@.len() && #[trigger] tree_object_texts(node.subdirs@[k].1).contains(t)
        implies all.contains(t) by {
        assert(sub.contains(t));
        let m = choose|m: int| 0 <= m < sub.len() && sub[m] == t;
        assert(all[m] == t);
    }
    assert forall|k: int| 0 <= k < node.subdirs@.len() implies #[trigger] committed_dirs(
        node,
    ).contains(node.subdirs@[k].0@) by {
        assert(subdir_dirs(node, n).contains(node.subdirs@[k].0@));
    }
}

/// Each object stores the text at its position.
pub open spec fn stores_all(objects: Seq<ObjectFile>, texts: Seq<Seq<char>>) -> bool {
    &&& objects.len() == texts.len()
    &&& forall|i: int| 0 <= i < objects.len() ==> stores(#[trigger] objects[i], texts[i])
}

/// The tree objects of a directory tree: the root's hash, every object to be
/// stored, in order, and the directories committed, in order.
pub struct TreeObjects {
    pub hash: String,
    pub objects: Vec<ObjectFile>,
    pub committed_dirs: Vec<String>,
}

/// The tree objects for `node` and the directories below it.
pub fn gen_tree_object(node: &TreeNode) -> (r: Result<TreeObjects, ChronicleError>)
    ensures
        r matches Ok(t) ==> {
            &&& t.hash@ == tree_hash(*node)
            &&& stores_all(t.objects@, tree_object_texts(*node))
            &&& names_view(t.committed_dirs@) == committed_dirs(*node)
        },
        r is Ok,
    decreases node,
{
    let mut tree_entries: Vec<TreeEntry> = Vec::new();
    let mut objects: Vec<ObjectFile> = Vec::new();
    let mut dirs: Vec<String> = Vec::new();
    let mut i: usize = 0;
    assert(entries_view(tree_entries@) =~= subdir_entries(*node, 0));
    assert(names_view(dirs@) =~= subdir_dirs(*node, 0));
    while i < node.subdirs.len()
        invariant
            i <= node.subdirs@.len(),
            entries_view(tree_entries@) == subdir_entries(*node, i as nat),
            stores_all(objects@, subdir_object_texts(*node, i as nat)),
            names_view(dirs@) == subdir_dirs(*node, i as nat),
        decreases node.subdirs@.len() - i,
    {
        let sub = gen_tree_object(&node.subdirs[i].1)?;
        let name = node.subdirs[i].0.clone();
        let ghost e0 = tree_entries@;
        let ghost o0 = objects@;
        let ghost d0 = dirs@;
        let ghost child_texts = tree_object_texts(node.subdirs@[i as int].1);
        tree_entries.push(TreeEntry::new(ObjectType::Tree, name.clone(), sub.hash));
        assert(entries_view(tree_entries@) =~= entries_view(e0).push(
            (ObjectType::Tree, name@, tree_hash(node.subdirs@[i as int].1)),
        ));
        let mut sub_objects = sub.objects;
        let ghost so = sub_objects@;
        objects.append(&mut sub_objects);
        assert(objects@ == o0 + so);
        assert forall|j: int| 0 <= j < objects@.len() implies stores(
            #[trigger] objects@[j],
            subdir_object_texts(*node, (i + 1) as nat)[j],
        ) by {
            if j < o0.len() {
                assert(objects@[j] == o0[j]);
            } else {
                assert(objects@[j] == so[j - o0.len()]);
            }
        }
        let mut sub_dirs = sub.committed_dirs;
        let ghost sd = sub_dirs@;
        dirs.append(&mut sub_dirs);
        dirs.push(name);
        assert(dirs@ == (d0 + sd).push(name));
        assert(names_view(dirs@) =~= (names_view(d0) + names_view(sd)).push(name@));
        i = i + 1;
    }
    let mut j: usize = 0;
    let ghost n_sub = tree_entries@.len();
    assert(entries_view(tree_entries@) =~= subdir_entries(*node, node.subdirs@.len() as nat)
        + file_entries(node.files@.take(0)));
    while j < node.files.len()
        invariant
            j <= node.files@.len(),
            i == node.subdirs@.len(),
            entries_view(tree_entries@) == subdir_entries(*node, i as nat) + file_entries(
                node.files@.take(j as int),
            ),
        decreases node.files@.len() - j,
    {
        let ghost e0 = tree_entries@;
        let entry = TreeEntry::new(
            ObjectType::Blob,
            node.files[j].0.clone(),
            node.files[j].1.clone(),
        );
        tree_entries.push(entry);
        assert(file_entries(node.files@.take(j + 1)) =~= file_entries(
            node.files@.take(j as int),
        ).push((ObjectType::Blob, node.files@[j as int].0@, node.files@[j as int].1@)));
        assert(entries_view(tree_entries@) =~= entries_view(e0).push(
            (ObjectType::Blob, node.files@[j as int].0@, node.files@[j as int].1@),
        ));
        j = j + 1;
    }
    assert(node.files@.take(node.files@.len() as int) == node.files@);
    let tree = create_tree_object(tree_entries)?;
    let hash = tree.hash.clone();
    let ghost o0 = objects@;
    objects.push(tree);
    assert(objects@ == o0.push(tree));
    assert forall|k: int| 0 <= k < objects@.len() implies stores(
        #[trigger] objects@[k],
        tree_object_texts(*node)[k],
    ) by {
        if k < o0.len() {
            assert(objects@[k] == o0[k]);
        }
    }
    Ok(TreeObjects { hash, objects, committed_dirs: dirs })
}

/// Everything a commit stores: the tree objects and then the commit object, in
/// the order they are to be written, the directories committed, and the hash of
/// the commit.
pub struct CommitObjects {
    pub objects: Vec<ObjectFile>,
    pub committed_dirs: Vec<String>,
    pub commit_hash: String,
}


/// `c` is what committing the tree `root` with message `message` stores.
pub open spec fn commits_tree(c: CommitObjects, root: TreeNode, message: Seq<char>) -> bool {
    &&& stores_all(
        c.objects@,
        tree_object_texts(root).push(commit_chars(tree_hash(root), message)),
    )
    &&& c.commit_hash@ == object_hash(commit_chars(tree_hash(root), message))
    &&& names_view(c.committed_dirs@) == committed_dirs(root)
}

/// Commits the staged files: the tree of the index's entries, its tree objects,
/// and a commit object with message `message` that points at the root tree.
pub fn handle_commit(entries: &Vec<(String, IndexEntry)>, message: String) -> (r: Result<
    CommitObjects,
    ChronicleError,
>)
    ensures
        r matches Ok(c) ==> exists|root: TreeNode|
            #[trigger] tree_of_staged(root, staged_pairs(entries@)) && commits_tree(
                c,
                root,
                message@,
            ),
        r is Ok,
{
    let staged_file_hashes = get_staged_hashes(entries);
    let commit_root = gen_tree_structure(&staged_file_hashes);
    let tree = gen_tree_object(&commit_root)?;
    let ghost msg = message@;
    let commit = create_commit_object(tree.hash, message)?;
    let commit_hash = commit.hash.clone();
    let mut objects = tree.objects;
    let ghost o0 = objects@;
    objects.push(commit);
    proof {
        assert(objects@ == o0.push(commit));
        assert forall|k: int| 0 <= k < objects@.len() implies stores(
            #[trigger] objects@[k],
            tree_object_texts(commit_root).push(commit_chars(tree_hash(commit_root), msg))[k],
        ) by {
            if k < o0.len() {
                assert(objects@[k] == o0[k]);
            }
        }
    }
    let c = CommitObjects { objects, committed_dirs: tree.committed_dirs, commit_hash };
    assert(commits_tree(c, commit_root, msg));
    assert(tree_of_staged(commit_root, staged_pairs(entries@)));
    Ok(c)
}

} // verus!
