//! The directory structure of the staged files: each node holds the files of
//! one directory, by name, and its subdirectories, by name.
use vstd::prelude::*;
use vstd::std_specs::cmp::PartialEqSpecImpl;

verus! {

/// Files and subdirectories are kept in the order they were first added; a
/// name is looked up at its first occurrence.
#[derive(Debug)]
pub struct TreeNode {
    pub files: Vec<(String, String)>,
    pub subdirs: Vec<(String, TreeNode)>,
}

/// `i` is the first position in `entries` whose name is `name`.
pub open spec fn is_first_index<V>(entries: Seq<(String, V)>, name: Seq<char>, i: int) -> bool {
    &&& 0 <= i < entries.len()
    &&& entries[i].0@ == name
    &&& forall|j: int| 0 <= j < i ==> entries[j].0@ != name
}

/// The first position in `entries` whose name is `name`, if any.
pub open spec fn first_index<V>(entries: Seq<(String, V)>, name: Seq<char>) -> Option<int> {
    if exists|i: int| 0 <= i < entries.len() && entries[i].0@ == name {
        Some(choose|i: int| is_first_index(entries, name, i))
    } else {
        None
    }
}

/// No name occurs twice.
pub open spec fn names_unique<V>(entries: Seq<(String, V)>) -> bool {
    forall|i: int, j: int|
        0 <= i < entries.len() && 0 <= j < entries.len() && i != j ==> entries[i].0@
            != entries[j].0@
}

/// Every directory of the tree holds each name at most once among its files and
/// at most once among its subdirectories.
pub open spec fn well_formed(node: TreeNode) -> bool
    decreases node,
{
    &&& names_unique(node.files@)
    &&& names_unique(node.subdirs@)
    &&& forall|i: int|
        0 <= i < node.subdirs@.len() ==> well_formed(#[trigger] node.subdirs@[i].1)
}

/// Some file lies at or below `node`.
pub open spec fn has_file(node: TreeNode) -> bool {
    exists|c: Seq<Seq<char>>| #[trigger] lookup_file(node, c) is Some
}

/// Every directory below `node` holds some file, at some depth.
pub open spec fn no_empty_dirs(node: TreeNode) -> bool
    decreases node,
{
    forall|i: int|
        0 <= i < node.subdirs@.len() ==> has_file(#[trigger] node.subdirs@[i].1) && no_empty_dirs(
            node.subdirs@[i].1,
        )
}

/// The hash of the file at path `comps` (its components, from the root), if any.
pub open spec fn lookup_file(node: TreeNode, comps: Seq<Seq<char>>) -> Option<Seq<char>>
    decreases node,
{
    if comps.len() == 0 {
        None
    } else if comps.len() == 1 {
        match first_index(node.files@, comps[0]) {
            Some(i) => Some(node.files@[i].1@),
            None => None,
        }
    } else {
        match first_index(node.subdirs@, comps[0]) {
            Some(i) => if 0 <= i < node.subdirs@.len() {
                lookup_file(node.subdirs@[i].1, comps.drop_first())
            } else {
                None
            },
            None => None,
        }
    }
}

pub proof fn lemma_first_index<V>(entries: Seq<(String, V)>, name: Seq<char>)
    ensures
        match first_index(entries, name) {
            Some(i) => is_first_index(entries, name, i),
            None => forall|j: int| 0 <= j < entries.len() ==> entries[j].0@ != name,
        },
{
    if exists|i: int| 0 <= i < entries.len() && entries[i].0@ == name {
        let k = choose|i: int| 0 <= i < entries.len() && entries[i].0@ == name;
        lemma_least_index(entries, name, k);
    }
}

proof fn lemma_least_index<V>(entries: Seq<(String, V)>, name: Seq<char>, k: int)
    requires
        0 <= k < entries.len(),
        entries[k].0@ == name,
    ensures
        exists|i: int| is_first_index(entries, name, i),
    decreases k,
{
    if exists|j: int| 0 <= j < k && entries[j].0@ == name {
        let j = choose|j: int| 0 <= j < k && entries[j].0@ == name;
        lemma_least_index(entries, name, j);
    } else {
        assert(is_first_index(entries, name, k));
    }
}

/// Only one position is the first with a given name.
pub proof fn lemma_first_index_unique<V>(entries: Seq<(String, V)>, name: Seq<char>, i: int)
    requires
        is_first_index(entries, name, i),
    ensures
        first_index(entries, name) == Some(i),
{
    lemma_first_index(entries, name);
    let k = first_index(entries, name)->0;
    if k < i {
        assert(entries[k].0@ != name);
    } else if i < k {
        assert(entries[i].0@ != name);
    }
}

/// Replacing an entry by one of the same name moves no first position.
pub proof fn lemma_first_index_update<V>(
    entries: Seq<(String, V)>,
    i: int,
    v: (String, V),
    name: Seq<char>,
)
    requires
        0 <= i < entries.len(),
        v.0@ == entries[i].0@,
    ensures
        first_index(entries.update(i, v), name) == first_index(entries, name),
{
    let e2 = entries.update(i, v);
    lemma_first_index(entries, name);
    match first_index(entries, name) {
        Some(k) => {
            assert(is_first_index(e2, name, k));
            lemma_first_index_unique(e2, name, k);
        },
        None => {
            lemma_first_index(e2, name);
            if first_index(e2, name) is Some {
                let k = first_index(e2, name)->0;
                assert(entries[k].0@ == name);
            }
        },
    }
}

/// Appending an entry moves no first position, and gives its name one when it had none.
pub proof fn lemma_first_index_push<V>(entries: Seq<(String, V)>, v: (String, V), name: Seq<char>)
    ensures
        first_index(entries.push(v), name) == (if first_index(entries, name) is Some {
            first_index(entries, name)
        } else if v.0@ == name {
            Some(entries.len() as int)
        } else {
            None
        }),
{
    let e2 = entries.push(v);
    lemma_first_index(entries, name);
    match first_index(entries, name) {
        Some(k) => {
            assert(is_first_index(e2, name, k));
            lemma_first_index_unique(e2, name, k);
        },
        None => {
            if v.0@ == name {
                assert(is_first_index(e2, name, entries.len() as int));
                lemma_first_index_unique(e2, name, entries.len() as int);
            } else {
                lemma_first_index(e2, name);
                if first_index(e2, name) is Some {
                    let k = first_index(e2, name)->0;
                    assert(e2[k].0@ == name);
                }
            }
        },
    }
}

/// Nothing can be found in a node without files or subdirectories.
pub proof fn lemma_lookup_empty(node: TreeNode, comps: Seq<Seq<char>>)
    requires
        node.files@.len() == 0,
        node.subdirs@.len() == 0,
    ensures
        lookup_file(node, comps) is None,
{
    lemma_first_index(node.files@, comps[0]);
    lemma_first_index(node.subdirs@, comps[0]);
}

fn find_name<V>(entries: &Vec<(String, V)>, name: &String) -> (r: Option<usize>)
    ensures
        r matches Some(k) ==> first_index(entries@, name@) == Some(k as int) && k < entries@.len(),
        r is None ==> first_index(entries@, name@) is None,
{
    let mut i: usize = 0;
    while i < entries.len()
        invariant
            i <= entries@.len(),
            forall|j: int| 0 <= j < i ==> entries@[j].0@ != name@,
        decreases entries@.len() - i,
    {
        if entries[i].0 == *name {
            proof {
                lemma_first_index_unique(entries@, name@, i as int);
            }
            return Some(i);
        }
        i = i + 1;
    }
    proof {
        lemma_first_index(entries@, name@);
    }
    None
}

impl TreeNode {
    pub fn new() -> (r: TreeNode)
        ensures
            r.files@.len() == 0,
            r.subdirs@.len() == 0,
    {
        TreeNode { files: Vec::new(), subdirs: Vec::new() }
    }

    /// Records the file `file_name` with hash `file_hash`, replacing the hash a
    /// file of that name had.
    pub fn add_file(&mut self, file_name: String, file_hash: String)
        ensures
            final(self).subdirs == old(self).subdirs,
            match first_index(old(self).files@, file_name@) {
                Some(i) => final(self).files@ == old(self).files@.update(
                    i,
                    (old(self).files@[i].0, file_hash),
                ),
                None => final(self).files@ == old(self).files@.push((file_name, file_hash)),
            },
            names_unique(old(self).files@) ==> names_unique(final(self).files@),
    {
        match find_name(&self.files, &file_name) {
            Some(i) => {
                proof {
                    lemma_first_index(self.files@, file_name@);
                }
                let mut entry = self.files.remove(i);
                entry.1 = file_hash;
                self.files.insert(i, entry);
                assert(self.files@ =~= old(self).files@.update(
                    i as int,
                    (old(self).files@[i as int].0, file_hash),
                ));
            },
            None => {
                self.files.push((file_name, file_hash));
            },
        }
    }

    /// The subdirectory `dir_name`, added empty when there was none.
    pub fn get_or_add_dir(&mut self, dir_name: String) -> (r: &mut TreeNode)
        ensures
            final(self).files == old(self).files,
            match first_index(old(self).subdirs@, dir_name@) {
                Some(i) => {
                    &&& 0 <= i < old(self).subdirs@.len()
                    &&& *r == old(self).subdirs@[i].1
                    &&& final(self).subdirs@ == old(self).subdirs@.update(
                        i,
                        (old(self).subdirs@[i].0, *final(r)),
                    )
                },
                None => {
                    &&& r.files@.len() == 0
                    &&& r.subdirs@.len() == 0
                    &&& final(self).subdirs@ == old(self).subdirs@.push((dir_name, *final(r)))
                },
            },
            well_formed(*old(self)) ==> well_formed(*r),
    {
        proof {
            lemma_first_index(self.subdirs@, dir_name@);
        }
        match find_name(&self.subdirs, &dir_name) {
            Some(i) => {
                proof {
                    if well_formed(*self) {
                        assert(well_formed(self.subdirs@[i as int].1));
                    }
                }
                &mut self.subdirs[i].1
            },
            None => {
                self.subdirs.push((dir_name, TreeNode::new()));
                let n = self.subdirs.len() - 1;
                &mut self.subdirs[n].1
            },
        }
    }
}

/// The characters of each string.
pub open spec fn names_view(v: Seq<String>) -> Seq<Seq<char>> {
    v.map_values(|s: String| s@)
}

/// Records the file at path `comps[idx..]` below `node` with hash `hash`,
/// adding the directories on the way that are missing.
pub fn insert_path(node: &mut TreeNode, comps: &Vec<String>, idx: usize, hash: &String)
    requires
        idx < comps@.len(),
    ensures
        forall|c: Seq<Seq<char>>|
            #[trigger] lookup_file(*final(node), c) == (if c == names_view(comps@).skip(
                idx as int,
            ) {
                Some(hash@)
            } else {
                lookup_file(*old(node), c)
            }),
        well_formed(*old(node)) ==> well_formed(*final(node)),
        no_empty_dirs(*old(node)) ==> no_empty_dirs(*final(node)),
    decreases comps@.len() - idx,
{
    let ghost target = names_view(comps@).skip(idx as int);
    let ghost n0 = *node;
    let name = comps[idx].clone();
    assert(target[0] == name@);
    if idx == comps.len() - 1 {
        node.add_file(name, hash.clone());
        proof {
            assert forall|c: Seq<Seq<char>>| #[trigger]
                lookup_file(*node, c) == (if c == target {
                    Some(hash@)
                } else {
                    lookup_file(n0, c)
                }) by {
                if c.len() == 1 {
                    lemma_first_index(n0.files@, name@);
                    match first_index(n0.files@, name@) {
                        Some(i) => {
                            lemma_first_index_update(
                                n0.files@,
                                i,
                                (n0.files@[i].0, *hash),
                                c[0],
                            );
                        },
                        None => {
                            lemma_first_index_push(n0.files@, (name, *hash), c[0]);
                        },
                    }
                    lemma_first_index(node.files@, c[0]);
                    lemma_first_index(n0.files@, c[0]);
                    if c[0] == name@ {
                        assert(c =~= target);
                    } else {
                        assert(c != target);
                    }
                } else {
                    assert(c.len() != target.len() || c.len() == 0 ==> c != target);
                }
            }
        }
    } else {
        let child = node.get_or_add_dir(name);
        let ghost c0 = *child;
        insert_path(child, comps, idx + 1, hash);
        proof {
            let rest = names_view(comps@).skip(idx + 1);
            assert(rest =~= target.drop_first());
            lemma_first_index(n0.subdirs@, name@);
            let i: int = match first_index(n0.subdirs@, name@) {
                Some(i) => i,
                None => n0.subdirs@.len() as int,
            };
            assert(node.subdirs@[i].0@ == name@);
            if no_empty_dirs(n0) {
                assert(lookup_file(node.subdirs@[i].1, rest) == Some(hash@));
                assert(has_file(node.subdirs@[i].1));
                assert forall|j: int| 0 <= j < node.subdirs@.len() implies has_file(
                    #[trigger] node.subdirs@[j].1,
                ) && no_empty_dirs(node.subdirs@[j].1) by {
                    if j != i {
                        assert(node.subdirs@[j] == n0.subdirs@[j]);
                    }
                }
            }
            assert forall|c: Seq<Seq<char>>| #[trigger]
                lookup_file(*node, c) == (if c == target {
                    Some(hash@)
                } else {
                    lookup_file(n0, c)
                }) by {
                if c.len() >= 2 {
                    match first_index(n0.subdirs@, name@) {
                        Some(k) => {
                            lemma_first_index_update(
                                n0.subdirs@,
                                k,
                                (n0.subdirs@[k].0, node.subdirs@[k].1),
                                c[0],
                            );
                        },
                        None => {
                            lemma_first_index_push(
                                n0.subdirs@,
                                node.subdirs@[i],
                                c[0],
                            );
                            lemma_lookup_empty(c0, c.drop_first());
                        },
                    }
                    lemma_first_index(node.subdirs@, c[0]);
                    lemma_first_index(n0.subdirs@, c[0]);
                    if c[0] == name@ {
                        assert(lookup_file(*node, c) == lookup_file(node.subdirs@[i].1, c.drop_first()));
                        if c == target {
                            assert(c.drop_first() == rest);
                        } else {
                            assert(c.drop_first() != rest) by {
                                if c.drop_first() == rest {
                                    assert(target =~= seq![target[0]] + target.drop_first());
                                    assert(c =~= seq![c[0]] + c.drop_first());
                                }
                            }
                        }
                    } else {
                        assert(c != target);
                        match first_index(n0.subdirs@, c[0]) {
                            Some(k) => {
                                assert(k != i);
                            },
                            None => {},
                        }
                    }
                } else {
                    assert(c != target);
                }
            }
        }
    }
}

/// The hash of the file named `name` in `files`, at its first occurrence.
pub open spec fn name_lookup(files: Seq<(String, String)>, name: Seq<char>) -> Option<Seq<char>> {
    match first_index(files, name) {
        Some(i) => Some(files[i].1@),
        None => None,
    }
}

/// Two lists of files name the same files with the same hashes, in any order.
pub open spec fn same_files(a: Seq<(String, String)>, b: Seq<(String, String)>) -> bool {
    forall|n: Seq<char>| #[trigger] name_lookup(a, n) == name_lookup(b, n)
}

/// Two trees hold the same files and directories under the same names, in any
/// order: what equality of the maps of a directory gives.
pub open spec fn same_tree(a: TreeNode, b: TreeNode) -> bool
    decreases a,
{
    &&& same_files(a.files@, b.files@)
    &&& forall|n: Seq<char>|
        (#[trigger] first_index(a.subdirs@, n) is Some) == (first_index(b.subdirs@, n) is Some)
    &&& forall|i: int, j: int|
        #![trigger a.subdirs@[i].1, b.subdirs@[j].1]
        0 <= i < a.subdirs@.len() && first_index(a.subdirs@, a.subdirs@[i].0@) == Some(i)
            && first_index(b.subdirs@, a.subdirs@[i].0@) == Some(j) ==> same_tree(
            a.subdirs@[i].1,
            b.subdirs@[j].1,
        )
}

/// Every tree compares equal to itself.
pub proof fn lemma_same_tree_reflexive(a: TreeNode)
    ensures
        same_tree(a, a),
    decreases a,
{
    assert forall|i: int, j: int|
        #![trigger a.subdirs@[i].1, a.subdirs@[j].1]
        0 <= i < a.subdirs@.len() && first_index(a.subdirs@, a.subdirs@[i].0@) == Some(i)
            && first_index(a.subdirs@, a.subdirs@[i].0@) == Some(j) implies same_tree(
            a.subdirs@[i].1,
            a.subdirs@[j].1,
        ) by {
        lemma_same_tree_reflexive(a.subdirs@[i].1);
    }
}

/// Equality of trees does not depend on the order of its arguments.
pub proof fn lemma_same_tree_symmetric(a: TreeNode, b: TreeNode)
    requires
        same_tree(a, b),
    ensures
        same_tree(b, a),
    decreases b,
{
    assert forall|j: int, i: int|
        #![trigger b.subdirs@[j].1, a.subdirs@[i].1]
        0 <= j < b.subdirs@.len() && first_index(b.subdirs@, b.subdirs@[j].0@) == Some(j)
            && first_index(a.subdirs@, b.subdirs@[j].0@) == Some(i) implies same_tree(
            b.subdirs@[j].1,
            a.subdirs@[i].1,
        ) by {
        let name = b.subdirs@[j].0@;
        lemma_first_index(a.subdirs@, name);
        assert(a.subdirs@[i].0@ == name);
        assert(same_tree(a.subdirs@[i].1, b.subdirs@[j].1));
        lemma_same_tree_symmetric(a.subdirs@[i].1, b.subdirs@[j].1);
    }
}

/// Two trees equal to a third are equal to each other.
pub proof fn lemma_same_tree_transitive(a: TreeNode, b: TreeNode, c: TreeNode)
    requires
        same_tree(a, b),
        same_tree(b, c),
    ensures
        same_tree(a, c),
    decreases a,
{
    assert forall|n: Seq<char>| #[trigger] name_lookup(a.files@, n) == name_lookup(c.files@, n) by {
        assert(name_lookup(a.files@, n) == name_lookup(b.files@, n));
        assert(name_lookup(b.files@, n) == name_lookup(c.files@, n));
    }
    assert forall|n: Seq<char>|
        (#[trigger] first_index(a.subdirs@, n) is Some) == (first_index(c.subdirs@, n) is Some) by {
        assert((first_index(a.subdirs@, n) is Some) == (first_index(b.subdirs@, n) is Some));
        assert((first_index(b.subdirs@, n) is Some) == (first_index(c.subdirs@, n) is Some));
    }
    assert forall|i: int, k: int|
        #![trigger a.subdirs@[i].1, c.subdirs@[k].1]
        0 <= i < a.subdirs@.len() && first_index(a.subdirs@, a.subdirs@[i].0@) == Some(i)
            && first_index(c.subdirs@, a.subdirs@[i].0@) == Some(k) implies same_tree(
            a.subdirs@[i].1,
            c.subdirs@[k].1,
        ) by {
        let name = a.subdirs@[i].0@;
        lemma_first_index(b.subdirs@, name);
        assert((first_index(a.subdirs@, name) is Some) == (first_index(b.subdirs@, name) is Some));
        let j = first_index(b.subdirs@, name)->0;
        assert(b.subdirs@[j].0@ == name);
        assert(same_tree(a.subdirs@[i].1, b.subdirs@[j].1));
        assert(same_tree(b.subdirs@[j].1, c.subdirs@[k].1));
        lemma_same_tree_transitive(a.subdirs@[i].1, b.subdirs@[j].1, c.subdirs@[k].1);
    }
}

/// Trees that compare equal hold the same file, with the same hash, at every path.
pub proof fn lemma_same_tree_lookup(a: TreeNode, b: TreeNode, comps: Seq<Seq<char>>)
    requires
        same_tree(a, b),
    ensures
        lookup_file(a, comps) == lookup_file(b, comps),
    decreases a,
{
    if comps.len() == 1 {
        assert(name_lookup(a.files@, comps[0]) == name_lookup(b.files@, comps[0]));
    } else if comps.len() > 1 {
        let name = comps[0];
        lemma_first_index(a.subdirs@, name);
        lemma_first_index(b.subdirs@, name);
        assert((first_index(a.subdirs@, name) is Some) == (first_index(b.subdirs@, name) is Some));
        if let Some(i) = first_index(a.subdirs@, name) {
            let j = first_index(b.subdirs@, name)->0;
            assert(a.subdirs@[i].0@ == name);
            assert(same_tree(a.subdirs@[i].1, b.subdirs@[j].1));
            lemma_same_tree_lookup(a.subdirs@[i].1, b.subdirs@[j].1, comps.drop_first());
        }
    }
}

/// A path through the first subdirectory of a name leads to what that
/// subdirectory holds at the rest of the path.
proof fn lemma_lookup_through(a: TreeNode, i: int, c: Seq<Seq<char>>)
    requires
        0 <= i < a.subdirs@.len(),
        first_index(a.subdirs@, a.subdirs@[i].0@) == Some(i),
        c.len() > 0,
    ensures
        lookup_file(a, seq![a.subdirs@[i].0@] + c) == lookup_file(a.subdirs@[i].1, c),
{
    let p = seq![a.subdirs@[i].0@] + c;
    assert(p.drop_first() =~= c);
    assert(p[0] == a.subdirs@[i].0@);
}

/// Trees without empty directories that hold the same file, with the same
/// hash, at every path compare equal: such a tree is determined by its files.
pub proof fn lemma_same_files_same_tree(a: TreeNode, b: TreeNode)
    requires
        no_empty_dirs(a),
        no_empty_dirs(b),
        forall|c: Seq<Seq<char>>| #[trigger] lookup_file(a, c) == lookup_file(b, c),
    ensures
        same_tree(a, b),
    decreases a,
{
    assert forall|n: Seq<char>| #[trigger] name_lookup(a.files@, n) == name_lookup(b.files@, n) by {
        assert(lookup_file(a, seq![n]) == lookup_file(b, seq![n]));
    }
    assert forall|n: Seq<char>|
        (#[trigger] first_index(a.subdirs@, n) is Some) == (first_index(b.subdirs@, n) is Some) by {
        lemma_first_index(a.subdirs@, n);
        lemma_first_index(b.subdirs@, n);
        if let Some(i) = first_index(a.subdirs@, n) {
            assert(has_file(a.subdirs@[i].1));
            let c = choose|c: Seq<Seq<char>>| #[trigger] lookup_file(a.subdirs@[i].1, c) is Some;
            lemma_lookup_through(a, i, c);
            assert(lookup_file(b, seq![n] + c) is Some);
        }
        if let Some(j) = first_index(b.subdirs@, n) {
            assert(has_file(b.subdirs@[j].1));
            let c = choose|c: Seq<Seq<char>>| #[trigger] lookup_file(b.subdirs@[j].1, c) is Some;
            lemma_lookup_through(b, j, c);
            assert(lookup_file(a, seq![n] + c) is Some);
        }
    }
    assert forall|i: int, j: int|
        #![trigger a.subdirs@[i].1, b.subdirs@[j].1]
        0 <= i < a.subdirs@.len() && first_index(a.subdirs@, a.subdirs@[i].0@) == Some(i)
            && first_index(b.subdirs@, a.subdirs@[i].0@) == Some(j) implies same_tree(
            a.subdirs@[i].1,
            b.subdirs@[j].1,
        ) by {
        let n = a.subdirs@[i].0@;
        lemma_first_index(b.subdirs@, n);
        assert(b.subdirs@[j].0@ == n);
        assert forall|c: Seq<Seq<char>>| #[trigger]
            lookup_file(a.subdirs@[i].1, c) == lookup_file(b.subdirs@[j].1, c) by {
            if c.len() > 0 {
                lemma_lookup_through(a, i, c);
                lemma_lookup_through(b, j, c);
                assert(lookup_file(a, seq![n] + c) == lookup_file(b, seq![n] + c));
            }
        }
        assert(no_empty_dirs(a.subdirs@[i].1));
        assert(no_empty_dirs(b.subdirs@[j].1));
        lemma_same_files_same_tree(a.subdirs@[i].1, b.subdirs@[j].1);
    }
}

fn files_equal(a: &Vec<(String, String)>, b: &Vec<(String, String)>) -> (r: bool)
    ensures
        r == same_files(a@, b@),
{
    let mut i: usize = 0;
    while i < a.len()
        invariant
            i <= a@.len(),
            forall|k: int|
                0 <= k < i && first_index(a@, a@[k].0@) == Some(k) ==> #[trigger] name_lookup(
                    b@,
                    a@[k].0@,
                ) == Some(a@[k].1@),
        decreases a@.len() - i,
    {
        if let Some(k) = find_name(a, &a[i].0) {
            if k == i {
                match find_name(b, &a[i].0) {
                    None => {
                        assert(name_lookup(a@, a@[i as int].0@) != name_lookup(b@, a@[i as int].0@));
                        return false;
                    },
                    Some(j) => {
                        if b[j].1 != a[i].1 {
                            assert(name_lookup(a@, a@[i as int].0@) != name_lookup(b@, a@[i as int].0@));
                            return false;
                        }
                    },
                }
            }
        }
        i = i + 1;
    }
    let mut j: usize = 0;
    while j < b.len()
        invariant
            j <= b@.len(),
            forall|k: int| 0 <= k < j ==> first_index(a@, #[trigger] b@[k].0@) is Some,
        decreases b@.len() - j,
    {
        if find_name(a, &b[j].0).is_none() {
            proof {
                lemma_first_index(b@, b@[j as int].0@);
            }
            assert(name_lookup(a@, b@[j as int].0@) != name_lookup(b@, b@[j as int].0@));
            return false;
        }
        j = j + 1;
    }
    assert forall|n: Seq<char>| #[trigger] name_lookup(a@, n) == name_lookup(b@, n) by {
        lemma_first_index(a@, n);
        lemma_first_index(b@, n);
        match first_index(a@, n) {
            Some(k) => {
                assert(name_lookup(b@, a@[k].0@) == Some(a@[k].1@));
            },
            None => {
                if let Some(k) = first_index(b@, n) {
                    assert(first_index(a@, b@[k].0@) is Some);
                }
            },
        }
    }
    true
}

/// The subdirectory at position `k` of `a`, where it is the first of its name,
/// has a counterpart of that name in `b` holding the same tree.
pub open spec fn subdir_matched(a: TreeNode, b: TreeNode, k: int) -> bool {
    first_index(a.subdirs@, a.subdirs@[k].0@) == Some(k) ==> match first_index(
        b.subdirs@,
        a.subdirs@[k].0@,
    ) {
        Some(j) => same_tree(a.subdirs@[k].1, b.subdirs@[j].1),
        None => false,
    }
}

/// Whether two trees hold the same files and directories, in any order.
pub fn trees_equal(a: &TreeNode, b: &TreeNode) -> (r: bool)
    ensures
        r == same_tree(*a, *b),
    decreases a,
{
    if !files_equal(&a.files, &b.files) {
        return false;
    }
    let mut i: usize = 0;
    while i < a.subdirs.len()
        invariant
            i <= a.subdirs@.len(),
            same_files(a.files@, b.files@),
            forall|k: int| 0 <= k < i ==> #[trigger] subdir_matched(*a, *b, k),
        decreases a.subdirs@.len() - i,
    {
        if let Some(k) = find_name(&a.subdirs, &a.subdirs[i].0) {
            if k == i {
                match find_name(&b.subdirs, &a.subdirs[i].0) {
                    None => {
                        assert(!subdir_matched(*a, *b, i as int));
                        return false;
                    },
                    Some(j) => {
                        if !trees_equal(&a.subdirs[i].1, &b.subdirs[j].1) {
                            assert(!subdir_matched(*a, *b, i as int));
                            return false;
                        }
                    },
                }
            }
        }
        assert(subdir_matched(*a, *b, i as int));
        i = i + 1;
    }
    let mut j: usize = 0;
    while j < b.subdirs.len()
        invariant
            j <= b.subdirs@.len(),
            same_files(a.files@, b.files@),
            forall|k: int| 0 <= k < a.subdirs@.len() ==> #[trigger] subdir_matched(*a, *b, k),
            forall|k: int| 0 <= k < j ==> first_index(a.subdirs@, #[trigger] b.subdirs@[k].0@) is Some,
        decreases b.subdirs@.len() - j,
    {
        if find_name(&a.subdirs, &b.subdirs[j].0).is_none() {
            proof {
                lemma_first_index(b.subdirs@, b.subdirs@[j as int].0@);
            }
            assert(first_index(b.subdirs@, b.subdirs@[j as int].0@) is Some);
            return false;
        }
        j = j + 1;
    }
    assert forall|n: Seq<char>|
        (#[trigger] first_index(a.subdirs@, n) is Some) == (first_index(b.subdirs@, n) is Some) by {
        lemma_first_index(a.subdirs@, n);
        lemma_first_index(b.subdirs@, n);
        match first_index(a.subdirs@, n) {
            Some(k) => {
                lemma_first_index_unique(a.subdirs@, a.subdirs@[k].0@, k);
                assert(subdir_matched(*a, *b, k));
            },
            None => {
                if let Some(k) = first_index(b.subdirs@, n) {
                    assert(first_index(a.subdirs@, b.subdirs@[k].0@) is Some);
                }
            },
        }
    }
    assert forall|k: int, j: int|
        #![trigger a.subdirs@[k].1, b.subdirs@[j].1]
        0 <= k < a.subdirs@.len() && first_index(a.subdirs@, a.subdirs@[k].0@) == Some(k)
            && first_index(b.subdirs@, a.subdirs@[k].0@) == Some(j) implies same_tree(
            a.subdirs@[k].1,
            b.subdirs@[j].1,
        ) by {
        assert(subdir_matched(*a, *b, k));
    }
    true
}

impl PartialEq for TreeNode {
    fn eq(&self, other: &Self) -> (r: bool) {
        trees_equal(self, other)
    }
}

impl PartialEqSpecImpl for TreeNode {
    open spec fn obeys_eq_spec() -> bool {
        true
    }

    open spec fn eq_spec(&self, other: &Self) -> bool {
        same_tree(*self, *other)
    }
}

} // verus!
