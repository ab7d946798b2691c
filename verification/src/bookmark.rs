//! A bookmark: a named, mutable pointer to a commit.

use crate::commit::Commit;
use vstd::prelude::*;

verus! {

/// A bookmark, persisted as the commit's hex hash under the bookmark's
/// path.
#[derive(Debug)]
pub struct BookMark {
    pub name: String,
    pub commit: Commit,
}

impl BookMark {
    pub fn new(name: String, commit: Commit) -> (r: Self)
        ensures
            r.name == name,
            r.commit == commit,
    {
        BookMark { name, commit }
    }
}

} // verus!
