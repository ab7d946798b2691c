//! The change classification between two staged indices.

use vstd::prelude::*;

verus! {

/// How two indices can relate at one filename.
#[derive(Debug, Clone, Copy, PartialEq, Eq, Structural)]
pub enum DIffTag {
    Delete,
    Insert,
    Equal,
    Replace,
}

/// A difference: each filename of either side, classified.
pub trait Diff<T, U> {
    fn diff(&self, vs: T) -> Vec<(DIffTag, U)>;
}

} // verus!
