//! The object store's byte layer: an object is persisted as the
//! zlib-compressed canonical framing, under the sharded path derived
//! from its hash. Writing the file itself (create-new, so that a second
//! write of the same object is a no-op) is the caller's concern.

use crate::error::Error;
use crate::hashing::sha1_of;
use crate::object::{decodes_to, parse_object, Hashable, Object};
use std::io::Read;
use std::io::Write;
use vstd::prelude::*;

verus! {

/// What zlib decompression yields for a byte sequence: a pure function
/// of the bytes alone, or nothing when they are not a valid zlib
/// stream. Its definition lives in the `flate2` crate and is not
/// restated here.
pub uninterp spec fn inflate_of(bytes: Seq<u8>) -> Option<Seq<u8>>;

/// Relies on `flate2::write::ZlibEncoder`: the compressed stream
/// decompresses back to exactly the input.
#[verifier::external_body]
fn zlib_compress(data: &[u8]) -> (r: Vec<u8>)
    ensures
        inflate_of(r@) == Some(data@),
{
    let mut enc = flate2::write::ZlibEncoder::new(Vec::new(), flate2::Compression::default());
    enc.write_all(data).expect("writing to a vec cannot fail");
    enc.finish().expect("writing to a vec cannot fail")
}

/// Relies on `flate2::read::ZlibDecoder`: decompression is a pure
/// function of the input bytes, and fails exactly on invalid streams.
#[verifier::external_body]
fn zlib_decompress(data: &[u8]) -> (r: Result<Vec<u8>, Error>)
    ensures
        match r {
            Ok(d) => inflate_of(data@) == Some(d@),
            Err(e) => inflate_of(data@) is None && e == Error::MalformedObject,
        },
{
    let mut dec = flate2::read::ZlibDecoder::new(data);
    let mut out = Vec::new();
    match dec.read_to_end(&mut out) {
        Ok(_) => Ok(out),
        Err(_) => Err(Error::MalformedObject),
    }
}

/// The bytes written to the object's store file: the compressed
/// canonical framing.
pub fn encode_for_store(obj: &Object) -> (r: Vec<u8>)
    ensures
        inflate_of(r@) == Some(obj.bytes_spec()),
{
    let framing = obj.as_bytes();
    zlib_compress(framing.as_slice())
}

/// Decodes an object read back from its store file: decompress, then
/// parse the framing.
pub fn decode_from_store(data: &[u8]) -> (r: Result<Object, Error>)
    ensures
        match inflate_of(data@) {
            Some(raw) => match r {
                Ok(o) => decodes_to(raw, o@),
                Err(e) => parse_object(raw) is None && e == Error::MalformedObject,
            },
            None => r matches Err(e) && e == Error::MalformedObject,
        },
{
    let raw = match zlib_decompress(data) {
        Ok(raw) => raw,
        Err(e) => {
            return Err(e);
        },
    };
    Object::from_content(raw)
}

/// The hex name of an object: the lowercase hex rendering of its hash,
/// which names its store file.
pub fn object_hex(obj: &Object) -> (r: String)
    ensures
        r@ == crate::hashing::hex_chars_of(sha1_of(obj.bytes_spec())),
{
    let h = obj.to_hash();
    crate::hashing::to_hex(h.as_slice())
}

/// Idempotence of object writes, on the side the core decides: the
/// stored bytes and the hash naming the store path are functions of the
/// object alone, so writing the same object again addresses the same
/// file with the same content. The file layer completes the property by
/// writing with create-new semantics and treating an existing file as
/// success.
pub proof fn lemma_object_write_idempotent(a: Object, b: Object)
    requires
        a@ == b@,
    ensures
        a.bytes_spec() == b.bytes_spec(),
        sha1_of(a.bytes_spec()) == sha1_of(b.bytes_spec()),
{
}

} // verus!
