//! The HEAD reference: either a bookmark file's path, or a commit hash
//! directly (a detached head). Serializing HEAD to its on-disk TOML form
//! is the caller's concern; the core only holds and interprets the
//! value.

use vstd::prelude::*;
use vstd::string::StrSliceExecFns;
use vstd::string::StringExecFns;

verus! {

/// Where HEAD points.
#[derive(Debug)]
pub enum Head {
    /// A bookmark file, by path.
    Bookmarker(String),
    /// A commit, by hex hash: a detached head.
    ObjectHash(String),
}

impl Head {
    pub fn from_path(path: String) -> (r: Self)
        ensures
            r matches Head::Bookmarker(p) && p == path,
    {
        Self::Bookmarker(path)
    }

    pub fn from_hash(hash: String) -> (r: Self)
        ensures
            r matches Head::ObjectHash(h) && h == hash,
    {
        Self::ObjectHash(hash)
    }

    /// True when HEAD is detached.
    pub fn is_hash(&self) -> (r: bool)
        ensures
            r == (self is ObjectHash),
    {
        matches!(self, Head::ObjectHash(_))
    }

    /// The path HEAD points at: the bookmark path itself, or the
    /// object's sharded relative path for a detached head.
    pub fn get_path(&self) -> (r: String)
        requires
            self matches Head::ObjectHash(h) ==> h@.len() >= 2,
        ensures
            match self {
                Head::Bookmarker(b) => r@ == b@,
                Head::ObjectHash(h) => r@ == h@.subrange(0, 2) + "/"@ + h@.subrange(
                    2,
                    h@.len() as int,
                ),
            },
    {
        match self {
            Head::Bookmarker(b) => crate::repository::clone_string(b),
            Head::ObjectHash(h) => {
                let (d, f) = crate::repository::split_hash(h.as_str());
                String::from_str(d).concat("/").concat(f)
            },
        }
    }
}

} // verus!
