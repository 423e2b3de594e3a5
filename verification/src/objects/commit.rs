//! Commits: a snapshot's root tree and its message, stored as an object.
use vstd::prelude::*;
use crate::error::ChronicleError;
use crate::objects::{ObjectFile, ObjectType, encode_object, object_chars, object_string, stores,
    lemma_object_body, lemma_object_prefix};
use crate::prefix::{after_char, before_char, lemma_after_char, lemma_before_char, read_prefix_spec};
use crate::text::{push_char, push_str};

verus! {

/// The body of a commit: `tree <tree hash>\n<message>`.
pub open spec fn commit_body(tree_hash: Seq<char>, message: Seq<char>) -> Seq<char> {
    seq!['t', 'r', 'e', 'e', ' '] + tree_hash + seq!['\n'] + message
}

/// The text of a commit object.
pub open spec fn commit_chars(tree_hash: Seq<char>, message: Seq<char>) -> Seq<char> {
    object_chars(ObjectType::Commit, commit_body(tree_hash, message))
}

/// A commit holds its tree's hash and its whole message: after the prefix,
/// which reads as a commit's, comes `tree `, then the text up to the first
/// newline is the tree hash, and all that follows that newline is the message.
pub proof fn lemma_commit_holds_tree_and_message(tree_hash: Seq<char>, message: Seq<char>)
    requires
        !tree_hash.contains('\n'),
    ensures
        read_prefix_spec(commit_chars(tree_hash, message)) matches Ok(p) && p.obj_type
            == ObjectType::Commit,
        ({
            let body = after_char(commit_chars(tree_hash, message), '\0').drop_first();
            &&& body.take(5) == seq!['t', 'r', 'e', 'e', ' ']
            &&& before_char(body.skip(5), '\n') == tree_hash
            &&& after_char(body.skip(5), '\n') == message
        }),
{
    let body = commit_body(tree_hash, message);
    lemma_object_prefix(ObjectType::Commit, body);
    lemma_object_body(ObjectType::Commit, body);
    assert((seq!['\n'] + body).drop_first() =~= body);
    assert(body.take(5) =~= seq!['t', 'r', 'e', 'e', ' ']);
    assert(body.skip(5) =~= tree_hash + seq!['\n'] + message);
    lemma_before_char(tree_hash, '\n', message);
    lemma_after_char(tree_hash, '\n', message);
}

fn commit_obj_body(tree_hash: &str, message: &str) -> (r: String)
    ensures
        r@ == commit_body(tree_hash@, message@),
{
    let mut obj_body = String::new();
    push_char(&mut obj_body, 't');
    push_char(&mut obj_body, 'r');
    push_char(&mut obj_body, 'e');
    push_char(&mut obj_body, 'e');
    push_char(&mut obj_body, ' ');
    push_str(&mut obj_body, tree_hash);
    push_char(&mut obj_body, '\n');
    push_str(&mut obj_body, message);
    obj_body
}

/// The commit object that points at the tree with hash `tree_hash`.
pub fn create_commit_object(tree_hash: String, message: String) -> (r: Result<
    ObjectFile,
    ChronicleError,
>)
    ensures
        r matches Ok(o) ==> stores(o, commit_chars(tree_hash@, message@)),
        r is Ok,
{
    let body = commit_obj_body(tree_hash.as_str(), message.as_str());
    let obj_string = object_string(ObjectType::Commit, body.as_str());
    encode_object(obj_string.as_str())
}

} // verus!
