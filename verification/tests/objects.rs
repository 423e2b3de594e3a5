use chronicle::compression::read_compressed_file;
use chronicle::error::ChronicleError;
use chronicle::hashing::hash_string;
use chronicle::objects::blob::create_blob;
use chronicle::objects::commit::create_commit_object;
use chronicle::objects::tree::{create_tree_object, TreeEntry};
use chronicle::objects::{encode_object, object_string, ObjectType};
use chronicle::prefix::{read_prefix, Prefix};

#[test]
fn object_type_names() {
    assert_eq!(ObjectType::Blob.to_string(), "blob");
    assert_eq!(ObjectType::Commit.to_string(), "commit");
    assert_eq!(ObjectType::Tree.to_string(), "tree");
    assert_eq!(ObjectType::Tag.to_string(), "tag");
}

#[test]
fn object_type_from_name() {
    assert_eq!(ObjectType::str_to_obj_type("blob"), Some(ObjectType::Blob));
    assert_eq!(ObjectType::str_to_obj_type("commit"), Some(ObjectType::Commit));
    assert_eq!(ObjectType::str_to_obj_type("tree"), Some(ObjectType::Tree));
    assert_eq!(ObjectType::str_to_obj_type("tag"), Some(ObjectType::Tag));
    assert_eq!(ObjectType::str_to_obj_type("Blob"), None);
    assert_eq!(ObjectType::str_to_obj_type(""), None);
    assert_eq!(ObjectType::str_to_obj_type("blob "), None);
}

#[test]
fn object_type_name_round_trip() {
    for t in [ObjectType::Blob, ObjectType::Commit, ObjectType::Tree, ObjectType::Tag] {
        assert_eq!(ObjectType::str_to_obj_type(&t.to_string()), Some(t));
    }
}

#[test]
fn prefix_text() {
    assert_eq!(Prefix::new(ObjectType::Blob, 12).to_string(), "blob 12\0\n");
    assert_eq!(Prefix::new(ObjectType::Tree, 0).to_string(), "tree 0\0\n");
    assert_eq!(
        Prefix::new(ObjectType::Commit, u64::MAX).to_string(),
        "commit 18446744073709551615\0\n"
    );
}

#[test]
fn prefix_round_trip() {
    for p in [
        Prefix::new(ObjectType::Blob, 0),
        Prefix::new(ObjectType::Tag, 7),
        Prefix::new(ObjectType::Commit, u64::MAX),
    ] {
        let text = p.to_string() + "body\0more";
        assert_eq!(read_prefix(&text), Ok(p));
    }
}

#[test]
fn read_prefix_cases() {
    assert_eq!(
        read_prefix("  tree\t 42 \0rest"),
        Ok(Prefix::new(ObjectType::Tree, 42))
    );
    assert_eq!(read_prefix("blob +5\0"), Ok(Prefix::new(ObjectType::Blob, 5)));
    assert_eq!(read_prefix("blob\0"), Err(ChronicleError::PrefixComponents));
    assert_eq!(read_prefix("blob 1 2\0"), Err(ChronicleError::PrefixComponents));
    assert_eq!(read_prefix("blob x\0"), Err(ChronicleError::InvalidObjectSize));
    assert_eq!(read_prefix("blob -1\0"), Err(ChronicleError::InvalidObjectSize));
    assert_eq!(read_prefix("blob +\0"), Err(ChronicleError::InvalidObjectSize));
    assert_eq!(
        read_prefix("blob 18446744073709551616\0"),
        Err(ChronicleError::InvalidObjectSize)
    );
    assert_eq!(
        read_prefix("blob 18446744073709551615\0"),
        Ok(Prefix::new(ObjectType::Blob, u64::MAX))
    );
}

#[test]
fn object_string_counts_bytes() {
    assert_eq!(object_string(ObjectType::Blob, "hello"), "blob 5\0\nhello");
    assert_eq!(object_string(ObjectType::Blob, "é"), "blob 2\0\né");
    assert_eq!(object_string(ObjectType::Blob, ""), "blob 0\0\n");
}

#[test]
fn blob_object() {
    let o = create_blob("hello").unwrap();
    let text = "blob 5\0\nhello";
    assert_eq!(o.hash, hash_string(text));
    assert_eq!(o.dir_path, format!(".chronicle/objects/{}", &o.hash[..2]));
    assert_eq!(o.file_path, format!(".chronicle/objects/{}/{}", &o.hash[..2], &o.hash[2..]));
    assert_eq!(read_compressed_file(&o.contents).unwrap(), text);
}

#[test]
fn commit_object() {
    let tree_hash = "0123456789012345678901234567890123456789";
    let o = create_commit_object(String::from(tree_hash), String::from("msg")).unwrap();
    let body = format!("tree {}\nmsg", tree_hash);
    let text = format!("commit {}\0\n{}", body.len(), body);
    assert_eq!(read_compressed_file(&o.contents).unwrap(), text);
    assert_eq!(o.hash, hash_string(&text));
}

#[test]
fn tree_entry_text() {
    let e = TreeEntry::new(ObjectType::Blob, String::from("a.rs"), String::from("ff"));
    assert_eq!(e.to_string(), "blob a.rs\0ff\n");
    assert_eq!(e.obj_type, ObjectType::Blob);
    assert_eq!(e.obj_path, "a.rs");
    assert_eq!(e.hash, "ff");
}

#[test]
fn tree_object() {
    let entries = vec![
        TreeEntry::new(ObjectType::Tree, String::from("d"), String::from("h1")),
        TreeEntry::new(ObjectType::Blob, String::from("f"), String::from("h2")),
    ];
    let o = create_tree_object(entries).unwrap();
    let body = "\ntree d\0h1\nblob f\0h2\n";
    let text = format!("tree {}\0\n{}", body.len(), body);
    assert_eq!(read_compressed_file(&o.contents).unwrap(), text);
    assert_eq!(o.hash, hash_string(&text));
}

#[test]
fn empty_tree_object() {
    let o = create_tree_object(Vec::new()).unwrap();
    assert_eq!(read_compressed_file(&o.contents).unwrap(), "tree 1\0\n\n");
}

#[test]
fn encoded_object_is_stored_under_its_hash() {
    let o = encode_object("some text").unwrap();
    assert_eq!(o.hash, hash_string("some text"));
    assert_eq!(read_compressed_file(&o.contents).unwrap(), "some text");
}
