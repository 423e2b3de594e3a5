//! Blobs: the contents of a file, stored as an object.
use vstd::prelude::*;
use crate::error::ChronicleError;
use vstd::utf8::encode_utf8;
use crate::objects::{ObjectFile, ObjectType, encode_object, object_chars, object_string, stores,
    lemma_object_body, lemma_object_prefix};
use crate::prefix::{Prefix, after_char, read_prefix_spec};

verus! {

/// The text of the blob for file contents `contents`.
pub open spec fn blob_chars(contents: Seq<char>) -> Seq<char> {
    object_chars(ObjectType::Blob, contents)
}

/// A blob holds the file's contents exactly: its prefix reads as a blob of
/// the contents' size in bytes, and after the prefix comes every character of
/// the contents, in order, and nothing else.
pub proof fn lemma_blob_holds_contents(contents: Seq<char>)
    ensures
        read_prefix_spec(blob_chars(contents)) == Ok::<Prefix, ChronicleError>(
            Prefix { obj_type: ObjectType::Blob, obj_size: encode_utf8(contents).len() as u64 },
        ),
        after_char(blob_chars(contents), '\0') == seq!['\n'] + contents,
        after_char(blob_chars(contents), '\0').drop_first() == contents,
{
    lemma_object_prefix(ObjectType::Blob, contents);
    lemma_object_body(ObjectType::Blob, contents);
    assert((seq!['\n'] + contents).drop_first() =~= contents);
}

/// The blob object for a file with contents `base_file_contents`.
pub fn create_blob(base_file_contents: &str) -> (r: Result<ObjectFile, ChronicleError>)
    ensures
        r matches Ok(o) ==> stores(o, blob_chars(base_file_contents@)),
        r is Ok,
{
    let obj_string = object_string(ObjectType::Blob, base_file_contents);
    encode_object(obj_string.as_str())
}

} // verus!
