//! Object types and the textual form every stored object takes:
//! a prefix `<type> <size>\0\n` followed by the object's body.
use vstd::prelude::*;
use vstd::utf8::encode_utf8;
use crate::compression::{compress_bytes, zlib_compress};
use crate::error::ChronicleError;
use crate::hashing::{hash_string, object_dir_path, object_file_path, object_hash,
    split_object_hash_to_paths};
use crate::prefix::{Prefix, prefix_chars, read_prefix_accepts, read_prefix_spec,
    lemma_read_prefix_round_trip, after_char, lemma_after_prefix};
use crate::text::push_str;

pub mod blob;
pub mod commit;
pub mod tree;

verus! {

#[derive(Debug, Clone, Copy, PartialEq, Eq, Structural)]
pub enum ObjectType {
    Blob,
    Commit,
    Tree,
    Tag,
}

/// The name under which an object type is written.
pub open spec fn obj_type_name(t: ObjectType) -> Seq<char> {
    match t {
        ObjectType::Blob => seq!['b', 'l', 'o', 'b'],
        ObjectType::Commit => seq!['c', 'o', 'm', 'm', 'i', 't'],
        ObjectType::Tag => seq!['t', 'a', 'g'],
        ObjectType::Tree => seq!['t', 'r', 'e', 'e'],
    }
}

/// The object type written under `s`, if any.
pub open spec fn obj_type_of_name(s: Seq<char>) -> Option<ObjectType> {
    if s == obj_type_name(ObjectType::Blob) {
        Some(ObjectType::Blob)
    } else if s == obj_type_name(ObjectType::Commit) {
        Some(ObjectType::Commit)
    } else if s == obj_type_name(ObjectType::Tag) {
        Some(ObjectType::Tag)
    } else if s == obj_type_name(ObjectType::Tree) {
        Some(ObjectType::Tree)
    } else {
        None
    }
}

impl ObjectType {
    pub fn to_string(&self) -> (r: String)
        ensures
            r@ == obj_type_name(*self),
    {
        match self {
            ObjectType::Blob => {
                proof {
                    reveal_strlit("blob");
                }
                "blob".to_owned()
            },
            ObjectType::Commit => {
                proof {
                    reveal_strlit("commit");
                }
                "commit".to_owned()
            },
            ObjectType::Tag => {
                proof {
                    reveal_strlit("tag");
                }
                "tag".to_owned()
            },
            ObjectType::Tree => {
                proof {
                    reveal_strlit("tree");
                }
                "tree".to_owned()
            },
        }
    }

    pub fn str_to_obj_type(string: &str) -> (r: Option<ObjectType>)
        ensures
            r == obj_type_of_name(string@),
    {
        let s = string.to_owned();
        proof {
            reveal_strlit("blob");
            reveal_strlit("commit");
            reveal_strlit("tag");
            reveal_strlit("tree");
            assert("blob"@ =~= obj_type_name(ObjectType::Blob));
            assert("commit"@ =~= obj_type_name(ObjectType::Commit));
            assert("tag"@ =~= obj_type_name(ObjectType::Tag));
            assert("tree"@ =~= obj_type_name(ObjectType::Tree));
        }
        if s == "blob".to_owned() {
            Some(ObjectType::Blob)
        } else if s == "commit".to_owned() {
            Some(ObjectType::Commit)
        } else if s == "tag".to_owned() {
            Some(ObjectType::Tag)
        } else if s == "tree".to_owned() {
            Some(ObjectType::Tree)
        } else {
            None
        }
    }
}

/// Reading back the name of a type gives the type; a name that reads as a type
/// is that type's name.
pub proof fn lemma_type_name_round_trip(t: ObjectType, s: Seq<char>)
    ensures
        obj_type_of_name(obj_type_name(t)) == Some(t),
        obj_type_of_name(s) == Some(t) ==> s == obj_type_name(t),
{
    assert(obj_type_name(ObjectType::Blob) != obj_type_name(ObjectType::Commit));
    assert(obj_type_name(ObjectType::Blob) != obj_type_name(ObjectType::Tag));
    assert(obj_type_name(ObjectType::Blob)[1] != obj_type_name(ObjectType::Tree)[1]);
    assert(obj_type_name(ObjectType::Commit) != obj_type_name(ObjectType::Tag));
    assert(obj_type_name(ObjectType::Commit) != obj_type_name(ObjectType::Tree));
    assert(obj_type_name(ObjectType::Tag) != obj_type_name(ObjectType::Tree));
}

/// The text of an object of type `t` with body `body`: the prefix that gives
/// the type and the body's size in bytes, then the body.
pub open spec fn object_chars(t: ObjectType, body: Seq<char>) -> Seq<char> {
    prefix_chars(Prefix { obj_type: t, obj_size: encode_utf8(body).len() as u64 }) + body
}

pub fn object_string(obj_type: ObjectType, body: &str) -> (r: String)
    ensures
        r@ == object_chars(obj_type, body@),
{
    let obj_len = body.as_bytes().len() as u64;
    let mut s = Prefix::new(obj_type, obj_len).to_string();
    push_str(&mut s, body);
    s
}

/// Reading the prefix of an object's text gives the object's type and the size
/// of its body in bytes.
pub proof fn lemma_object_prefix(t: ObjectType, body: Seq<char>)
    ensures
        read_prefix_accepts(object_chars(t, body)),
        read_prefix_spec(object_chars(t, body)) == Ok::<Prefix, ChronicleError>(
            Prefix { obj_type: t, obj_size: encode_utf8(body).len() as u64 },
        ),
{
    lemma_read_prefix_round_trip(Prefix { obj_type: t, obj_size: encode_utf8(body).len() as u64 }, body);
}

/// The text of an object holds its body whole after the `\0\n` that ends
/// the prefix.
pub proof fn lemma_object_body(t: ObjectType, body: Seq<char>)
    ensures
        after_char(object_chars(t, body), '\0') == seq!['\n'] + body,
{
    lemma_after_prefix(Prefix { obj_type: t, obj_size: encode_utf8(body).len() as u64 }, body);
}

/// An object as it is stored: its hash, the directory and file that hold it,
/// and the compressed bytes of its text.
pub struct ObjectFile {
    pub hash: String,
    pub dir_path: String,
    pub file_path: String,
    pub contents: Vec<u8>,
}

/// `o` is how the object with text `obj` is stored.
pub open spec fn stores(o: ObjectFile, obj: Seq<char>) -> bool {
    &&& o.hash@ == object_hash(obj)
    &&& o.dir_path@ == object_dir_path(o.hash@)
    &&& o.file_path@ == object_file_path(o.hash@)
    &&& o.contents@ == zlib_compress(encode_utf8(obj))
}

/// How the object with text `obj_string` is stored; fails only when the
/// compressor fails.
pub fn encode_object(obj_string: &str) -> (r: Result<ObjectFile, ChronicleError>)
    ensures
        r matches Ok(o) ==> stores(o, obj_string@),
        r is Ok,
{
    let obj_hash = hash_string(obj_string);
    let compressed_obj_contents = compress_bytes(obj_string.as_bytes())?;
    let (dir_path, file_path) = split_object_hash_to_paths(obj_hash.as_str());
    Ok(ObjectFile { hash: obj_hash, dir_path, file_path, contents: compressed_obj_contents })
}

} // verus!
