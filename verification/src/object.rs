//! The capability shared by all object kinds — a canonical byte framing
//! and the SHA-1 hash computed over it — and the tagged union of the
//! three kinds, with the framing-header dispatch used when reading an
//! object back from the store.

use crate::blob::{blob_framing, Blob};
use crate::bytes_codec::find_byte;
use crate::bytes_codec::find_byte_at;
use crate::bytes_codec::lemma_find_byte_hit;
use crate::commit::{commit_framing, parse_commit_body, starts_with, Commit, CommitV};
use crate::error::Error;
use crate::hashing::{sha1_digest, sha1_of};
use crate::tree::{entries_sorted, parse_tree_body, tree_framing, EntryV, Tree};
use vstd::prelude::*;
use vstd::slice::slice_subrange;

verus! {

/// An object kind has a canonical framing, `bytes_spec`, over which its
/// identity hash is computed.
pub trait Hashable: Sized {
    /// The canonical framing of the object, at the specification level.
    spec fn bytes_spec(&self) -> Seq<u8>;

    /// The canonical framing, as bytes.
    fn as_bytes(&self) -> (r: Vec<u8>)
        ensures
            r@ == self.bytes_spec(),
    ;

    /// The SHA-1 hash of the canonical framing.
    fn to_hash(&self) -> (r: Vec<u8>)
        ensures
            r@ == sha1_of(self.bytes_spec()),
            r@.len() == 20,
    {
        let b = self.as_bytes();
        sha1_digest(b.as_slice())
    }
}

/// The mathematical model of an object of any kind.
#[verifier::ext_equal]
pub ghost enum ObjectV {
    Blob(Seq<u8>),
    Tree(Seq<EntryV>),
    Commit(CommitV),
}

/// An object of any of the three kinds.
#[derive(Debug, Clone)]
pub enum Object {
    Blob(Blob),
    Tree(Tree),
    Commit(Commit),
}

impl View for Object {
    type V = ObjectV;

    open spec fn view(&self) -> ObjectV {
        match self {
            Object::Blob(b) => ObjectV::Blob(b.content@),
            Object::Tree(t) => ObjectV::Tree(t@),
            Object::Commit(c) => ObjectV::Commit(c@),
        }
    }
}

/// The canonical framing of an object's model.
pub open spec fn object_framing(v: ObjectV) -> Seq<u8> {
    match v {
        ObjectV::Blob(content) => blob_framing(content),
        ObjectV::Tree(entries) => tree_framing(entries),
        ObjectV::Commit(c) => commit_framing(c),
    }
}

pub open spec fn blob_word() -> Seq<u8> {
    seq![0x62u8, 0x6cu8, 0x6fu8, 0x62u8, 0x20u8]
}

pub open spec fn tree_word() -> Seq<u8> {
    seq![0x74u8, 0x72u8, 0x65u8, 0x65u8, 0x20u8]
}

pub open spec fn commit_word() -> Seq<u8> {
    seq![0x63u8, 0x6fu8, 0x6du8, 0x6du8, 0x69u8, 0x74u8, 0x20u8]
}

/// What parsing a whole raw object yields: the header before the first
/// NUL names the kind, and the rest is handed to that kind's decoder.
pub open spec fn parse_object(raw: Seq<u8>) -> Option<ObjectV> {
    let nul = find_byte(raw, 0x00, 0);
    if nul < 0 {
        None
    } else {
        let header = raw.subrange(0, nul);
        let rest = raw.skip(nul + 1);
        if starts_with(header, blob_word()) {
            Some(ObjectV::Blob(rest))
        } else if starts_with(header, tree_word()) {
            match parse_tree_body(rest) {
                Some(es) => Some(ObjectV::Tree(es)),
                None => None,
            }
        } else if starts_with(header, commit_word()) {
            match parse_commit_body(rest) {
                Some(c) => Some(ObjectV::Commit(c)),
                None => None,
            }
        } else {
            None
        }
    }
}

/// What a decoded object is bound to be, given the raw bytes: the parsed
/// model, with tree entries canonicalized by sorting.
pub open spec fn decodes_to(raw: Seq<u8>, v: ObjectV) -> bool {
    match parse_object(raw) {
        Some(ObjectV::Blob(content)) => v matches ObjectV::Blob(c) && c == content,
        Some(ObjectV::Tree(es)) => v matches ObjectV::Tree(t) && entries_sorted(t)
            && t.to_multiset() == es.to_multiset(),
        Some(ObjectV::Commit(c)) => v matches ObjectV::Commit(c2) && c2 == c,
        None => false,
    }
}

fn word_blob() -> (r: Vec<u8>)
    ensures
        r@ == blob_word(),
{
    let mut v: Vec<u8> = Vec::new();
    v.push(0x62u8);
    v.push(0x6cu8);
    v.push(0x6fu8);
    v.push(0x62u8);
    v.push(0x20u8);
    proof {
        assert(v@ =~= blob_word());
    }
    v
}

fn word_tree() -> (r: Vec<u8>)
    ensures
        r@ == tree_word(),
{
    let mut v: Vec<u8> = Vec::new();
    v.push(0x74u8);
    v.push(0x72u8);
    v.push(0x65u8);
    v.push(0x65u8);
    v.push(0x20u8);
    proof {
        assert(v@ =~= tree_word());
    }
    v
}

fn word_commit() -> (r: Vec<u8>)
    ensures
        r@ == commit_word(),
{
    let mut v: Vec<u8> = Vec::new();
    v.push(0x63u8);
    v.push(0x6fu8);
    v.push(0x6du8);
    v.push(0x6du8);
    v.push(0x69u8);
    v.push(0x74u8);
    v.push(0x20u8);
    proof {
        assert(v@ =~= commit_word());
    }
    v
}

impl Object {
    /// Decodes an object from its raw (uncompressed) stored form: the
    /// framing header selects the kind, whose decoder takes the rest.
    pub fn from_content(raw_content: Vec<u8>) -> (r: Result<Self, Error>)
        ensures
            match r {
                Ok(o) => decodes_to(raw_content@, o@),
                Err(e) => parse_object(raw_content@) is None && e == Error::MalformedObject,
            },
    {
        let raw = raw_content.as_slice();
        let nul = match find_byte_at(raw, 0x00u8, 0) {
            Some(i) => i,
            None => {
                return Err(Error::MalformedObject);
            },
        };
        let header = slice_subrange(raw, 0, nul);
        let rest = slice_subrange(raw, nul + 1, raw.len());
        proof {
            assert(header@ =~= raw@.subrange(0, nul as int));
            assert(rest@ =~= raw@.skip(nul + 1));
        }
        if crate::commit::has_prefix(header, &word_blob()) {
            match Blob::from_rawobject(rest) {
                Ok(b) => Ok(Object::Blob(b)),
                Err(_) => Err(Error::MalformedObject),
            }
        } else if crate::commit::has_prefix(header, &word_tree()) {
            match Tree::from_rawobject(rest) {
                Ok(t) => Ok(Object::Tree(t)),
                Err(e) => Err(e),
            }
        } else if crate::commit::has_prefix(header, &word_commit()) {
            match Commit::from_rawobject(rest) {
                Ok(c) => Ok(Object::Commit(c)),
                Err(e) => Err(e),
            }
        } else {
            Err(Error::MalformedObject)
        }
    }

    /// The name of this object's kind.
    pub fn as_str(&self) -> (r: &'static str)
        ensures
            match self {
                Object::Blob(_) => r@ == "blob"@,
                Object::Tree(_) => r@ == "tree"@,
                Object::Commit(_) => r@ == "commit"@,
            },
    {
        match self {
            Object::Blob(_) => "blob",
            Object::Tree(_) => "tree",
            Object::Commit(_) => "commit",
        }
    }
}

impl Hashable for Object {
    open spec fn bytes_spec(&self) -> Seq<u8> {
        object_framing(self@)
    }

    fn as_bytes(&self) -> (r: Vec<u8>)
        ensures
            r@ == self.bytes_spec(),
    {
        match self {
            Object::Blob(b) => b.as_bytes(),
            Object::Tree(t) => t.as_bytes(),
            Object::Commit(c) => c.as_bytes(),
        }
    }
}


/// Round trip of whole objects: parsing the canonical framing of a
/// well-formed object gives back its model, with tree entries in their
/// stored order.
pub proof fn lemma_object_round_trip(v: ObjectV)
    requires
        match v {
            ObjectV::Blob(_) => true,
            ObjectV::Tree(es) => crate::tree::entries_wf(es),
            ObjectV::Commit(c) => crate::commit::commit_wf(c),
        },
    ensures
        parse_object(object_framing(v)) == Some(v),
{
    let s = object_framing(v);
    let word = match v {
        ObjectV::Blob(_) => blob_word(),
        ObjectV::Tree(_) => tree_word(),
        ObjectV::Commit(_) => commit_word(),
    };
    let body = match v {
        ObjectV::Blob(content) => content,
        ObjectV::Tree(es) => crate::tree::tree_body(es),
        ObjectV::Commit(c) => crate::commit::commit_body(c),
    };
    let digits = crate::bytes_codec::dec_digits(body.len());
    crate::bytes_codec::lemma_dec_digits_wf(body.len());
    let k = word.len() + digits.len();
    assert(s =~= word + digits + seq![0x00u8] + body);
    assert forall|j: int| 0 <= j < k implies s[j] != 0x00u8 by {
        if j < word.len() {
            assert(s[j] == word[j]);
        } else {
            assert(s[j] == digits[j - word.len()]);
            assert(crate::bytes_codec::is_dec_digit(digits[j - word.len()]));
        }
    }
    assert(s[k as int] == 0x00u8);
    crate::bytes_codec::lemma_find_byte_hit(s, 0x00u8, 0, k as int);
    let header = s.subrange(0, k as int);
    assert(header.subrange(0, word.len() as int) =~= word);
    assert(crate::commit::starts_with(header, word));
    assert(s.skip(k as int + 1) =~= body);
    match v {
        ObjectV::Blob(content) => {
        },
        ObjectV::Tree(es) => {
            assert(header[0] == 0x74u8);
            if crate::commit::starts_with(header, blob_word()) {
                assert(header.subrange(0, blob_word().len() as int)[0] == blob_word()[0]);
            }
            crate::tree::lemma_parse_tree_body_round_trip(es);
        },
        ObjectV::Commit(c) => {
            assert(header[0] == 0x63u8);
            if crate::commit::starts_with(header, blob_word()) {
                assert(header.subrange(0, blob_word().len() as int)[0] == blob_word()[0]);
            }
            if crate::commit::starts_with(header, tree_word()) {
                assert(header.subrange(0, tree_word().len() as int)[0] == tree_word()[0]);
            }
            crate::commit::lemma_commit_round_trip(c);
        },
    }
}

} // verus!
