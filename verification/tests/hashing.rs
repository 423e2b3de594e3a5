use chronicle::compression::{compress_bytes, read_compressed_file};
use chronicle::error::ChronicleError;
use chronicle::hashing::{
    hash_bytes, hash_string, is_valid_hash, split_object_hash_to_names, split_object_hash_to_paths,
};

#[test]
fn sha1_hex_of_known_strings() {
    assert_eq!(hash_string(""), "da39a3ee5e6b4b0d3255bfef95601890afd80709");
    assert_eq!(hash_string("abc"), "a9993e364706816aba3e25717850c26c9cd0d89d");
}

#[test]
fn valid_hashes() {
    assert!(is_valid_hash("da39a3ee5e6b4b0d3255bfef95601890afd80709"));
    assert!(is_valid_hash("ZZZZZZZZZZZZZZZZZZZZZZZZZZZZZZZZZZZZZZZZ"));
    assert!(!is_valid_hash("da39a3ee5e6b4b0d3255bfef95601890afd8070"));
    assert!(!is_valid_hash("da39a3ee5e6b4b0d3255bfef95601890afd807090"));
    assert!(!is_valid_hash("éa39a3ee5e6b4b0d3255bfef95601890afd8070"));
    assert!(!is_valid_hash(""));
}

#[test]
fn hash_names() {
    let (d, f) = split_object_hash_to_names("da39a3ee5e6b4b0d3255bfef95601890afd80709");
    assert_eq!(d, "da");
    assert_eq!(f, "39a3ee5e6b4b0d3255bfef95601890afd80709");
    let (d, f) = split_object_hash_to_names("é9a3ee5e6b4b0d3255bfef95601890afd80709x");
    assert_eq!(d, "é");
    assert_eq!(f, "9a3ee5e6b4b0d3255bfef95601890afd80709x");
}

#[test]
fn hash_paths() {
    let (d, f) = split_object_hash_to_paths("da39a3ee5e6b4b0d3255bfef95601890afd80709");
    assert_eq!(d, ".chronicle/objects/da");
    assert_eq!(f, ".chronicle/objects/da/39a3ee5e6b4b0d3255bfef95601890afd80709");
    let (d, f) = split_object_hash_to_paths("/a39a3ee5e6b4b0d3255bfef95601890afd80709");
    assert_eq!(d, "/a");
    assert_eq!(f, "/a/39a3ee5e6b4b0d3255bfef95601890afd80709");
    let (d, f) = split_object_hash_to_paths("ab/9a3ee5e6b4b0d3255bfef95601890afd80709");
    assert_eq!(d, ".chronicle/objects/ab");
    assert_eq!(f, "/9a3ee5e6b4b0d3255bfef95601890afd80709");
}

#[test]
fn compression_round_trip() {
    for text in ["", "hello", "blob 5\0\nhello", "ünïcödé"] {
        let packed = compress_bytes(text.as_bytes()).unwrap();
        assert_ne!(packed, text.as_bytes());
        assert_eq!(read_compressed_file(&packed).unwrap(), text);
    }
}

#[test]
fn reading_garbage_fails() {
    assert_eq!(read_compressed_file(b"not zlib"), Err(ChronicleError::DecompressionFailed));
}

#[test]
fn reading_non_utf8_fails() {
    let packed = compress_bytes(&[0xff, 0xfe, 0x00]).unwrap();
    assert_eq!(read_compressed_file(&packed), Err(ChronicleError::NotUtf8));
}

#[test]
fn hash_bytes_of_known_inputs() {
    assert_eq!(hash_bytes(&[]), "da39a3ee5e6b4b0d3255bfef95601890afd80709");
    assert_eq!(hash_bytes(b"abc"), "a9993e364706816aba3e25717850c26c9cd0d89d");
    assert_eq!(hash_bytes(b"abc"), hash_string("abc"));
    assert_ne!(hash_bytes(&[0u8; 20]), hash_bytes(&[1u8; 20]));
}
