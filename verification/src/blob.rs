//! The blob object: an opaque byte sequence whose identity is the hash of
//! its canonical framing `"blob " || decimal(len) || 0x00 || content`.

use crate::bytes_codec::{dec_digits, push_bytes, u64_to_dec};
use crate::error::Error;
use crate::object::Hashable;
use vstd::prelude::*;
use vstd::slice::slice_to_vec;

verus! {

/// The canonical framing of a blob with the given content.
pub open spec fn blob_framing(content: Seq<u8>) -> Seq<u8> {
    seq![0x62u8, 0x6cu8, 0x6fu8, 0x62u8, 0x20u8] + dec_digits(content.len()) + seq![0x00u8]
        + content
}

/// A file-content object.
#[derive(Debug, Clone, PartialEq)]
pub struct Blob {
    pub content: Vec<u8>,
}

impl Blob {
    /// Wraps file content read by the caller.
    pub fn new(content: Vec<u8>) -> (r: Self)
        ensures
            r.content == content,
    {
        Self { content }
    }

    /// Decodes a blob from the payload that follows the framing header.
    /// Every payload is a valid blob.
    pub fn from_rawobject(content: &[u8]) -> (r: Result<Self, Error>)
        ensures
            r matches Ok(b) && b.content@ == content@,
    {
        Ok(Self { content: slice_to_vec(content) })
    }
}

/// Relies on `String::from_utf8`: succeeds exactly on valid UTF-8 —
/// bytes that are the encoding of some character sequence — yielding
/// the string those bytes encode.
#[verifier::external_body]
fn bytes_to_string(v: Vec<u8>) -> (r: Result<String, Error>)
    ensures
        match r {
            Ok(s) => vstd::utf8::encode_utf8(s@) == v@,
            Err(e) => e == Error::Encoding && !(exists|cs: Seq<char>|
                vstd::utf8::encode_utf8(cs) == v@),
        },
{
    match String::from_utf8(v) {
        Ok(s) => Ok(s),
        Err(_) => Err(Error::Encoding),
    }
}

impl Blob {
    /// The content as text, when it is valid UTF-8.
    pub fn to_text(&self) -> (r: Result<String, Error>)
        ensures
            match r {
                Ok(s) => vstd::utf8::encode_utf8(s@) == self.content@,
                Err(e) => e == Error::Encoding && !(exists|cs: Seq<char>|
                    vstd::utf8::encode_utf8(cs) == self.content@),
            },
    {
        bytes_to_string(crate::bytes_codec::clone_bytes(&self.content))
    }
}

impl Hashable for Blob {
    open spec fn bytes_spec(&self) -> Seq<u8> {
        blob_framing(self.content@)
    }

    fn as_bytes(&self) -> (r: Vec<u8>)
        ensures
            r@ == self.bytes_spec(),
    {
        let mut v: Vec<u8> = Vec::new();
        v.push(0x62u8);
        v.push(0x6cu8);
        v.push(0x6fu8);
        v.push(0x62u8);
        v.push(0x20u8);
        let mut digits = u64_to_dec(self.content.len() as u64);
        v.append(&mut digits);
        v.push(0x00u8);
        push_bytes(&mut v, self.content.as_slice());
        proof {
            assert(v@ =~= self.bytes_spec());
        }
        v
    }
}

} // verus!
