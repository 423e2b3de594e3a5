//! Trees: the entries of one directory, stored as an object.
use vstd::prelude::*;
use crate::error::ChronicleError;
use crate::objects::{
    ObjectFile, ObjectType, encode_object, obj_type_name, object_chars, object_string, stores,
    lemma_object_body,
};
use crate::prefix::{after_char, before_char, lemma_after_char, lemma_before_char};
use crate::text::{push_char, push_str};

verus! {

pub struct TreeEntry {
    pub obj_type: ObjectType,
    pub obj_path: String,
    pub hash: String,
}

/// One entry's line: `<type> <path>\0<hash>\n`.
pub open spec fn entry_chars(t: ObjectType, path: Seq<char>, hash: Seq<char>) -> Seq<char> {
    obj_type_name(t) + seq![' '] + path + seq!['\0'] + hash + seq!['\n']
}

/// What an entry records: its type, its path and its hash.
pub open spec fn entry_view(e: TreeEntry) -> (ObjectType, Seq<char>, Seq<char>) {
    (e.obj_type, e.obj_path@, e.hash@)
}

pub open spec fn entries_view(entries: Seq<TreeEntry>) -> Seq<(ObjectType, Seq<char>, Seq<char>)> {
    entries.map_values(|e: TreeEntry| entry_view(e))
}

/// The lines of entries, in order.
pub open spec fn lines_of(v: Seq<(ObjectType, Seq<char>, Seq<char>)>) -> Seq<char>
    decreases v.len(),
{
    if v.len() == 0 {
        seq![]
    } else {
        lines_of(v.drop_last()) + entry_chars(v.last().0, v.last().1, v.last().2)
    }
}

/// The text of the tree object with the given entries: its body is a newline,
/// then the line of each entry.
pub open spec fn tree_text(v: Seq<(ObjectType, Seq<char>, Seq<char>)>) -> Seq<char> {
    object_chars(ObjectType::Tree, seq!['\n'] + lines_of(v))
}

/// The lines of a list of entries joined to another are the lines of the
/// first list, then those of the second.
pub proof fn lemma_lines_of_concat(
    v1: Seq<(ObjectType, Seq<char>, Seq<char>)>,
    v2: Seq<(ObjectType, Seq<char>, Seq<char>)>,
)
    ensures
        lines_of(v1 + v2) == lines_of(v1) + lines_of(v2),
    decreases v2.len(),
{
    if v2.len() == 0 {
        assert(v1 + v2 =~= v1);
        assert(lines_of(v1) + lines_of(v2) =~= lines_of(v1));
    } else {
        assert((v1 + v2).drop_last() =~= v1 + v2.drop_last());
        assert((v1 + v2).last() == v2.last());
        lemma_lines_of_concat(v1, v2.drop_last());
        let e = v2.last();
        assert(lines_of(v1) + lines_of(v2.drop_last()) + entry_chars(e.0, e.1, e.2) =~= lines_of(
            v1,
        ) + (lines_of(v2.drop_last()) + entry_chars(e.0, e.1, e.2)));
    }
}

/// A tree body has exactly one line per entry, in the order of the entries:
/// one entry gives its own line, and any entry added to a list adds its line,
/// whatever the entries before it hold.
pub proof fn lemma_one_line_per_entry(
    v: Seq<(ObjectType, Seq<char>, Seq<char>)>,
    e: (ObjectType, Seq<char>, Seq<char>),
)
    ensures
        lines_of(seq![e]) == entry_chars(e.0, e.1, e.2),
        lines_of(v.push(e)) == lines_of(v) + entry_chars(e.0, e.1, e.2),
        lines_of(seq![e] + v) == entry_chars(e.0, e.1, e.2) + lines_of(v),
{
    assert(seq![e].drop_last() =~= Seq::<(ObjectType, Seq<char>, Seq<char>)>::empty());
    assert(lines_of(Seq::<(ObjectType, Seq<char>, Seq<char>)>::empty()) + entry_chars(e.0, e.1, e.2)
        =~= entry_chars(e.0, e.1, e.2));
    assert(v.push(e) =~= v + seq![e]);
    lemma_lines_of_concat(v, seq![e]);
    lemma_lines_of_concat(seq![e], v);
}

/// An entry's line reads back as its type's name before the first space, its
/// path between that space and the first `\0`, and its hash, then a newline,
/// after that `\0`.
pub proof fn lemma_entry_line(t: ObjectType, path: Seq<char>, hash: Seq<char>)
    requires
        !path.contains('\0'),
    ensures
        before_char(entry_chars(t, path, hash), ' ') == obj_type_name(t),
        before_char(after_char(entry_chars(t, path, hash), ' '), '\0') == path,
        after_char(after_char(entry_chars(t, path, hash), ' '), '\0') == hash + seq!['\n'],
{
    let name = obj_type_name(t);
    assert(!name.contains(' ')) by {
        if name.contains(' ') {
            let k = choose|k: int| 0 <= k < name.len() && name[k] == ' ';
            match t {
                ObjectType::Blob => {},
                ObjectType::Commit => {},
                ObjectType::Tag => {},
                ObjectType::Tree => {},
            }
        }
    }
    let rest = path + seq!['\0'] + hash + seq!['\n'];
    assert(entry_chars(t, path, hash) =~= name + seq![' '] + rest);
    lemma_before_char(name, ' ', rest);
    lemma_after_char(name, ' ', rest);
    assert(rest =~= path + seq!['\0'] + (hash + seq!['\n']));
    lemma_before_char(path, '\0', hash + seq!['\n']);
    lemma_after_char(path, '\0', hash + seq!['\n']);
}

/// After its prefix, a tree object holds a newline and then the line of every
/// entry, in order.
pub proof fn lemma_tree_text_body(v: Seq<(ObjectType, Seq<char>, Seq<char>)>)
    ensures
        after_char(tree_text(v), '\0') == seq!['\n', '\n'] + lines_of(v),
{
    lemma_object_body(ObjectType::Tree, seq!['\n'] + lines_of(v));
    assert(seq!['\n'] + (seq!['\n'] + lines_of(v)) =~= seq!['\n', '\n'] + lines_of(v));
}

impl TreeEntry {
    pub fn new(obj_type: ObjectType, obj_path: String, hash: String) -> (r: TreeEntry)
        ensures
            r.obj_type == obj_type,
            r.obj_path == obj_path,
            r.hash == hash,
    {
        TreeEntry { obj_type, obj_path, hash }
    }

    pub fn to_string(&self) -> (r: String)
        ensures
            r@ == entry_chars(self.obj_type, self.obj_path@, self.hash@),
    {
        let mut s = self.obj_type.to_string();
        push_char(&mut s, ' ');
        push_str(&mut s, self.obj_path.as_str());
        push_char(&mut s, '\0');
        push_str(&mut s, self.hash.as_str());
        push_char(&mut s, '\n');
        s
    }
}

fn tree_obj_body(entries: &Vec<TreeEntry>) -> (r: String)
    ensures
        r@ == seq!['\n'] + lines_of(entries_view(entries@)),
{
    let mut obj_body = String::new();
    push_char(&mut obj_body, '\n');
    let mut i: usize = 0;
    while i < entries.len()
        invariant
            i <= entries@.len(),
            obj_body@ == seq!['\n'] + lines_of(entries_view(entries@.take(i as int))),
        decreases entries@.len() - i,
    {
        let line = entries[i].to_string();
        push_str(&mut obj_body, line.as_str());
        assert(entries_view(entries@.take(i + 1)).drop_last() =~= entries_view(
            entries@.take(i as int),
        ));
        i = i + 1;
    }
    assert(entries@.take(entries@.len() as int) == entries@);
    obj_body
}

/// The tree object with the given entries, in the given order.
pub fn create_tree_object(tree_entries: Vec<TreeEntry>) -> (r: Result<ObjectFile, ChronicleError>)
    ensures
        r matches Ok(o) ==> stores(o, tree_text(entries_view(tree_entries@))),
        r is Ok,
{
    let body = tree_obj_body(&tree_entries);
    let obj_string = object_string(ObjectType::Tree, body.as_str());
    encode_object(obj_string.as_str())
}

} // verus!
