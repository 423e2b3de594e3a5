//! Object hashes: the lowercase hex of the SHA-1 digest of an object's text,
//! and where the object with a given hash is kept.
use vstd::prelude::*;
use vstd::utf8::{encode_utf8, is_ascii_chars, is_ascii_chars_encode_utf8, is_char_boundary,
    encode_utf8_decode_utf8, is_ascii_chars_concat, encode_utf8_valid_utf8,
    is_char_boundary_iff_not_is_continuation_byte};
use rand::{Rng, SeedableRng};
use sha1::{Digest, Sha1};
use crate::paths::{objects_dir, objects_path};
use crate::path::{path_push, path_push_spec, components, lemma_components_of_push_name};
use crate::text::digit_char;

verus! {

/// The SHA-1 digest of `data`, as `sha1::Sha1` computes it.
pub uninterp spec fn sha1(data: Seq<u8>) -> Seq<u8>;

/// `<Sha1 as Digest>::digest`: the 20-byte SHA-1 digest of `data`. The digest
/// itself is named by `sha1`; only its length, the hasher's fixed output size,
/// is stated.
#[verifier::external_body]
fn sha1_digest(data: &[u8]) -> (d: Vec<u8>)
    ensures
        d@ == sha1(data@),
        d@.len() == 20,
{
    Sha1::digest(data).to_vec()
}

/// A hex digit in lowercase.
pub open spec fn hex_digit(n: int) -> char {
    if n < 10 {
        digit_char(n)
    } else {
        ((n - 10 + 97) as u32) as char
    }
}

/// Two lowercase hex digits per byte, high half first.
pub open spec fn hex_lower(data: Seq<u8>) -> Seq<char>
    decreases data.len(),
{
    if data.len() == 0 {
        seq![]
    } else {
        seq![hex_digit((data[0] / 16) as int), hex_digit((data[0] % 16) as int)] + hex_lower(data.drop_first())
    }
}

/// `hex::encode`: each byte as two lowercase hex digits, high half first.
#[verifier::external_body]
fn hex_encode(data: &[u8]) -> (s: String)
    ensures
        s@ == hex_lower(data@),
{
    hex::encode(data)
}

/// The hash of an object's text.
pub open spec fn object_hash(s: Seq<char>) -> Seq<char> {
    hex_lower(sha1(encode_utf8(s)))
}

pub fn hash_string(string: &str) -> (r: String)
    ensures
        r@ == object_hash(string@),
        sha1(encode_utf8(string@)).len() == 20,
        r@.len() == 40,
        is_ascii_chars(r@),
        encode_utf8(r@).len() == 40,
        is_char_boundary(encode_utf8(r@), 2),
{
    let digest = sha1_digest(string.as_bytes());
    proof {
        lemma_object_hash(string@);
    }
    hex_encode(digest.as_slice())
}

pub proof fn lemma_hex_lower(data: Seq<u8>)
    ensures
        hex_lower(data).len() == 2 * data.len(),
        is_ascii_chars(hex_lower(data)),
    decreases data.len(),
{
    if data.len() > 0 {
        lemma_hex_lower(data.drop_first());
        let h = hex_lower(data);
        let t = hex_lower(data.drop_first());
        assert(h == seq![hex_digit((data[0] / 16) as int), hex_digit((data[0] % 16) as int)] + t);
        assert forall|i: int| 0 <= i < h.len() implies '\0' <= #[trigger] h[i] <= '\u{7f}' by {
            if i >= 2 {
                assert(h[i] == t[i - 2]);
            }
        }
    }
}

/// A lowercase hex digit: `0` to `9` or `a` to `f`.
pub open spec fn is_lower_hex(c: char) -> bool {
    (48 <= (c as u32) <= 57) || (97 <= (c as u32) <= 102)
}

/// The value of a lowercase hex digit.
pub open spec fn hex_value(c: char) -> int {
    if (c as u32) <= 57 {
        (c as u32) - 48
    } else {
        (c as u32) - 87
    }
}

proof fn lemma_hex_digit(n: int)
    requires
        0 <= n < 16,
    ensures
        is_lower_hex(hex_digit(n)),
        hex_value(hex_digit(n)) == n,
{
    if n < 10 {
        assert(digit_char(n) as u32 == n + 48);
    } else {
        assert(hex_digit(n) as u32 == n + 87);
    }
}

/// The hex of some bytes is two lowercase hex digits per byte, in order, the
/// first giving the byte's high half and the second its low half.
pub proof fn lemma_hex_lower_decodes(data: Seq<u8>)
    ensures
        hex_lower(data).len() == 2 * data.len(),
        forall|i: int| 0 <= i < hex_lower(data).len() ==> is_lower_hex(#[trigger] hex_lower(data)[i]),
        forall|i: int|
            0 <= i < data.len() ==> hex_value(hex_lower(data)[2 * i]) * 16 + hex_value(
                hex_lower(data)[2 * i + 1],
            ) == #[trigger] data[i],
    decreases data.len(),
{
    if data.len() > 0 {
        let rest = data.drop_first();
        lemma_hex_lower_decodes(rest);
        let h = hex_lower(data);
        let t = hex_lower(rest);
        let b = data[0];
        lemma_hex_digit((b / 16) as int);
        lemma_hex_digit((b % 16) as int);
        assert(h == seq![hex_digit((b / 16) as int), hex_digit((b % 16) as int)] + t);
        assert forall|i: int| 0 <= i < h.len() implies is_lower_hex(#[trigger] h[i]) by {
            if i >= 2 {
                assert(h[i] == t[i - 2]);
            }
        }
        assert forall|i: int| 0 <= i < data.len() implies hex_value(h[2 * i]) * 16 + hex_value(
            h[2 * i + 1],
        ) == #[trigger] data[i] by {
            if i > 0 {
                assert(h[2 * i] == t[2 * (i - 1)]);
                assert(h[2 * i + 1] == t[2 * (i - 1) + 1]);
                assert(data[i] == rest[i - 1]);
            } else {
                assert((b / 16) * 16 + b % 16 == b);
            }
        }
    }
}

/// An object hash is 40 ASCII characters.
pub proof fn lemma_object_hash(s: Seq<char>)
    requires
        sha1(encode_utf8(s)).len() == 20,
    ensures
        object_hash(s).len() == 40,
        is_ascii_chars(object_hash(s)),
        encode_utf8(object_hash(s)).len() == 40,
        is_char_boundary(encode_utf8(object_hash(s)), 2),
{
    lemma_hex_lower(sha1(encode_utf8(s)));
    is_ascii_chars_encode_utf8(object_hash(s));
    lemma_ascii_boundary(object_hash(s), 2);
}

/// Every byte of an ASCII string starts a character.
pub proof fn lemma_ascii_boundary(s: Seq<char>, k: int)
    requires
        is_ascii_chars(s),
        0 <= k < s.len(),
    ensures
        is_char_boundary(encode_utf8(s), k),
{
    is_ascii_chars_encode_utf8(s);
    encode_utf8_valid_utf8(s);
    let b = encode_utf8(s);
    assert(s[k] as u8 == b[k]);
    assert('\0' <= s[k] <= '\u{7f}');
    is_char_boundary_iff_not_is_continuation_byte(b, k);
}

/// A hash is valid when it is 40 bytes of ASCII.
pub open spec fn valid_hash(hash: Seq<char>) -> bool {
    encode_utf8(hash).len() == 40 && is_ascii_chars(hash)
}

pub fn is_valid_hash(hash: &str) -> (r: bool)
    ensures
        r == valid_hash(hash@),
{
    hash.as_bytes().len() == 40 && hash.is_ascii()
}

/// The two parts of a hash that name an object's directory and file: its first
/// two bytes and the rest.
pub fn split_object_hash_to_names(hash: &str) -> (r: (&str, &str))
    requires
        encode_utf8(hash@).len() == 40,
        is_char_boundary(encode_utf8(hash@), 2),
    ensures
        encode_utf8(r.0@) == encode_utf8(hash@).take(2),
        encode_utf8(r.1@) == encode_utf8(hash@).skip(2),
        r.0@ + r.1@ == hash@,
{
    let (directory_name, file_name) = hash.split_at(2);
    proof {
        let b = encode_utf8(hash@);
        assert(b.subrange(0, 2) == b.take(2));
        assert(b.subrange(2, b.len() as int) == b.skip(2));
        lemma_encode_utf8_concat(directory_name@, file_name@);
        assert(b.take(2) + b.skip(2) == b);
        encode_utf8_decode_utf8(directory_name@ + file_name@);
        encode_utf8_decode_utf8(hash@);
    }
    (directory_name, file_name)
}

pub proof fn lemma_encode_utf8_concat(a: Seq<char>, b: Seq<char>)
    ensures
        encode_utf8(a + b) == encode_utf8(a) + encode_utf8(b),
    decreases a.len(),
{
    if a.len() > 0 {
        assert((a + b).drop_first() == a.drop_first() + b);
        lemma_encode_utf8_concat(a.drop_first(), b);
        assert((a + b)[0] == a[0]);
    } else {
        assert(a + b == b);
    }
}

/// The directory of the object with hash `hash`, for a hash of ASCII characters.
pub open spec fn object_dir_path(hash: Seq<char>) -> Seq<char> {
    path_push_spec(objects_path(), hash.take(2))
}

/// The file of the object with hash `hash`, for a hash of ASCII characters.
pub open spec fn object_file_path(hash: Seq<char>) -> Seq<char> {
    path_push_spec(object_dir_path(hash), hash.skip(2))
}

/// The file of an object lies under the objects directory, in a directory
/// named by the first two characters of its hash, under a name made of the
/// rest of the hash: those are its last two components, exactly as written.
pub proof fn lemma_object_file_components(hash: Seq<char>)
    requires
        valid_hash(hash),
        !hash.contains('/'),
    ensures
        hash.take(2) + hash.skip(2) == hash,
        components(object_dir_path(hash)) == components(objects_path()).push(hash.take(2)),
        components(object_file_path(hash)) == components(objects_path()).push(hash.take(2)).push(
            hash.skip(2),
        ),
{
    is_ascii_chars_encode_utf8(hash);
    assert(hash.len() == 40);
    assert(hash.take(2) + hash.skip(2) =~= hash);
    let d = hash.take(2);
    let f = hash.skip(2);
    assert(!d.contains('/')) by {
        if d.contains('/') {
            let k = choose|k: int| 0 <= k < d.len() && d[k] == '/';
            assert(hash[k] == '/');
        }
    }
    assert(!f.contains('/')) by {
        if f.contains('/') {
            let k = choose|k: int| 0 <= k < f.len() && f[k] == '/';
            assert(hash[k + 2] == '/');
        }
    }
    assert(d != seq!['.']) by {
        assert(d.len() == 2);
    }
    assert(f != seq!['.']) by {
        assert(f.len() == 38);
    }
    lemma_components_of_push_name(objects_path(), d);
    assert(object_dir_path(hash).len() > 0);
    lemma_components_of_push_name(object_dir_path(hash), f);
}

/// The directory and file under the objects directory that hold the object
/// with hash `hash`: `<objects>/<first two bytes>/<rest>`.
pub fn split_object_hash_to_paths(hash: &str) -> (r: (String, String))
    requires
        encode_utf8(hash@).len() == 40,
        is_char_boundary(encode_utf8(hash@), 2),
    ensures
        exists|n0: Seq<char>, n1: Seq<char>|
            {
                &&& n0 + n1 == hash@
                &&& encode_utf8(n0) == encode_utf8(hash@).take(2)
                &&& r.0@ == path_push_spec(objects_path(), n0)
                &&& r.1@ == path_push_spec(r.0@, n1)
            },
        is_ascii_chars(hash@) ==> r.0@ == object_dir_path(hash@) && r.1@ == object_file_path(
            hash@,
        ),
{
    let (directory_name, file_name) = split_object_hash_to_names(hash);
    let directory_path = path_push(objects_dir(), directory_name);
    let file_path = path_push(directory_path.as_str(), file_name);
    proof {
        if is_ascii_chars(hash@) {
            is_ascii_chars_encode_utf8(hash@);
            lemma_ascii_prefix(directory_name@, file_name@);
            assert(hash@.take(2) == directory_name@);
            assert(hash@.skip(2) == file_name@);
        }
    }
    (directory_path, file_path)
}

/// Splitting an ASCII string at a byte count splits it at the same character count.
proof fn lemma_ascii_prefix(a: Seq<char>, b: Seq<char>)
    requires
        is_ascii_chars(a + b),
    ensures
        encode_utf8(a).len() == a.len(),
{
    is_ascii_chars_concat(a + b, a, b);
    is_ascii_chars_encode_utf8(a);
}

/// A generator of random numbers seeded from the operating system.
#[verifier::external_type_specification]
#[verifier::external_body]
pub struct ExStdRng(rand::rngs::StdRng);

/// `StdRng::from_rng(OsRng)`: a generator seeded from the operating system's
/// random source; `None` when that source reports an error. Nothing is stated
/// of when it does.
#[verifier::external_body]
fn seeded_rng() -> (rng: Option<rand::rngs::StdRng>) {
    rand::rngs::StdRng::from_rng(rand::rngs::OsRng).ok()
}

/// `Rng::gen::<u8>`: a random byte; nothing is stated of its value.
#[verifier::external_body]
fn random_byte(rng: &mut rand::rngs::StdRng) -> (b: u8) {
    rng.gen::<u8>()
}

/// The lowercase hex of the SHA-1 digest of `bytes`.
pub fn hash_bytes(bytes: &[u8]) -> (r: String)
    ensures
        r@ == hex_lower(sha1(bytes@)),
        r@.len() == 40,
{
    let digest = sha1_digest(bytes);
    proof {
        lemma_hex_lower(digest@);
    }
    hex_encode(digest.as_slice())
}

/// Twenty bytes drawn from `rng`.
fn draw_bytes(rng: &mut rand::rngs::StdRng) -> (v: Vec<u8>)
    ensures
        v@.len() == 20,
{
    let mut random_bytes: Vec<u8> = Vec::new();
    while random_bytes.len() < 20
        invariant
            random_bytes@.len() <= 20,
        decreases 20 - random_bytes@.len(),
    {
        let b = random_byte(rng);
        random_bytes.push(b);
    }
    random_bytes
}

/// The hash of 20 random bytes; `None` when the operating system gives no
/// random seed.
pub fn gen_random_hash() -> (r: Option<String>)
    ensures
        r matches Some(h) ==> (exists|bytes: Seq<u8>|
            bytes.len() == 20 && h@ == hex_lower(sha1(bytes))) && h@.len() == 40,
{
    let mut rng = match seeded_rng() {
        Some(rng) => rng,
        None => {
            return None;
        },
    };
    let random_bytes = draw_bytes(&mut rng);
    let h = hash_bytes(random_bytes.as_slice());
    assert(random_bytes@.len() == 20 && h@ == hex_lower(sha1(random_bytes@)));
    Some(h)
}

} // verus!
