use vstd::prelude::*;

verus! {

/// The error kinds the storage core distinguishes.
///
/// `TypeMismatch` carries the expected object kind and the hash (or kind)
/// that was actually found.
#[derive(Debug, Clone, PartialEq, Eq)]
pub enum Error {
    /// Repository discovery reached the home directory without finding one.
    NotFoundRepository,
    /// A working-tree path passed in does not exist.
    NotFoundPath,
    /// A hash prefix resolved to zero stored objects.
    NotFoundObject,
    /// A hash prefix shorter than six hex characters.
    LessObjectHash,
    /// A hash prefix matched more than one stored object.
    AmbiguousHash,
    /// The caller asked for one object kind but the hash names another.
    TypeMismatch(String, String),
    /// An operation required a bookmark but HEAD points at a commit directly.
    DetachedHead,
    /// A bookmark file does not hold a valid commit hash.
    BookmarkMismatch,
    /// The index decoder reached the end of input or an invalid header.
    MalformedIndex,
    /// An object decoder found invalid framing.
    MalformedObject,
    /// An underlying file-system error.
    Io,
    /// Bytes were not valid UTF-8 where UTF-8 was required.
    Encoding,
    /// A TOML encode or decode failure for config or HEAD.
    Toml,
}

} // verus!
