//! zlib compression of stored objects, and reading a stored object back as text.
use vstd::prelude::*;
use vstd::utf8::{decode_utf8, encode_utf8, valid_utf8, encode_utf8_decode_utf8,
    encode_utf8_valid_utf8};
use flate2::{Compression, read::ZlibDecoder, write::ZlibEncoder};
use std::io::{Read, Write};
use crate::error::ChronicleError;

verus! {

/// `std::io::Error`, which the zlib encoder and decoder report; carried, never read.
#[verifier::external_type_specification]
#[verifier::external_body]
pub struct ExIoError(std::io::Error);

/// The zlib stream that `flate2`'s encoder at the default level produces for `data`.
pub uninterp spec fn zlib_compress(data: Seq<u8>) -> Seq<u8>;

/// The bytes that `flate2`'s zlib decoder reads out of `data`, read to the end;
/// `None` when the decoder reports an error.
pub uninterp spec fn zlib_decompress(data: Seq<u8>) -> Option<Seq<u8>>;

/// `flate2::write::ZlibEncoder` at `Compression::default()` over a `Vec`: feeds it
/// `data` with `write_all` and takes the stream with `finish`. The stream is
/// named by `zlib_compress`. It never fails: the miniz_oxide compressor fails
/// only on bad parameters or a failed output callback, and the default level
/// writing into a `Vec` has neither.
#[verifier::external_body]
fn zlib_encode(data: &[u8]) -> (r: Result<Vec<u8>, std::io::Error>)
    ensures
        r is Ok,
        r matches Ok(v) ==> v@ == zlib_compress(data@),
{
    let mut encoder = ZlibEncoder::new(Vec::new(), Compression::default());
    encoder.write_all(data)?;
    encoder.finish()
}

/// `flate2::read::ZlibDecoder` over `data`, read to the end. Whether it fails,
/// and the bytes it gives back, are named by `zlib_decompress`; on a stream
/// that the encoder of `zlib_encode` produced it gives back, without error,
/// the bytes that encoder was fed.
#[verifier::external_body]
fn zlib_decode(data: &[u8]) -> (r: Result<Vec<u8>, std::io::Error>)
    ensures
        r is Ok <==> zlib_decompress(data@) is Some,
        r matches Ok(v) ==> zlib_decompress(data@) == Some(v@),
        r is Err ==> forall|d: Seq<u8>| #[trigger] zlib_compress(d) != data@,
        r matches Ok(v) ==> forall|d: Seq<u8>| #[trigger] zlib_compress(d) == data@ ==> v@ == d,
{
    let mut decoder = ZlibDecoder::new(data);
    let mut decompressed_data = Vec::new();
    decoder.read_to_end(&mut decompressed_data)?;
    Ok(decompressed_data)
}

/// `String::from_utf8`: the text that `bytes` encode, when they are UTF-8.
#[verifier::external_body]
fn string_from_utf8(bytes: Vec<u8>) -> (r: Option<String>)
    ensures
        r is Some <==> valid_utf8(bytes@),
        r matches Some(s) ==> s@ == decode_utf8(bytes@),
{
    String::from_utf8(bytes).ok()
}

pub fn compress_bytes(bytes: &[u8]) -> (r: Result<Vec<u8>, ChronicleError>)
    ensures
        r matches Ok(v) ==> v@ == zlib_compress(bytes@),
        r is Ok,
{
    match zlib_encode(bytes) {
        Ok(v) => Ok(v),
        Err(_) => Err(ChronicleError::CompressionFailed),
    }
}

/// The text of a stored object, given the bytes of its file. Text that was
/// stored compressed by `compress_bytes` is read back unchanged.
pub fn read_compressed_file(file_bytes: &[u8]) -> (r: Result<String, ChronicleError>)
    ensures
        match zlib_decompress(file_bytes@) {
            None => r == Err::<String, ChronicleError>(ChronicleError::DecompressionFailed),
            Some(d) => if valid_utf8(d) {
                r matches Ok(s) && encode_utf8(s@) == d
            } else {
                r == Err::<String, ChronicleError>(ChronicleError::NotUtf8)
            },
        },
        forall|t: Seq<char>|
            #[trigger] zlib_compress(encode_utf8(t)) == file_bytes@ ==> (r matches Ok(s) && s@
                == t),
{
    let decompressed = match zlib_decode(file_bytes) {
        Ok(v) => v,
        Err(_) => {
            return Err(ChronicleError::DecompressionFailed);
        },
    };
    let ghost d = decompressed@;
    match string_from_utf8(decompressed) {
        Some(s) => {
            proof {
                vstd::utf8::decode_utf8_encode_utf8(d);
                assert forall|t: Seq<char>| #[trigger]
                    zlib_compress(encode_utf8(t)) == file_bytes@ implies s@ == t by {
                    encode_utf8_decode_utf8(t);
                }
            }
            Ok(s)
        },
        None => {
            proof {
                assert forall|t: Seq<char>| #[trigger]
                    zlib_compress(encode_utf8(t)) == file_bytes@ implies false by {
                    encode_utf8_valid_utf8(t);
                }
            }
            Err(ChronicleError::NotUtf8)
        },
    }
}

} // verus!
