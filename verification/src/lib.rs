//! A content-addressed version-control storage core: typed objects (blob,
//! tree, commit) with canonical byte framings hashed by SHA-1, a sharded
//! object store with abbreviated-hash resolution, a binary staging index,
//! HEAD/bookmark references, and ancestry queries over the commit graph.
//!
//! Every codec is verified against a mathematical model of its byte format,
//! and the round-trip laws between encoders and decoders are proved.

pub mod blob;
pub mod bookmark;
pub mod bytes_codec;
pub mod commit;
pub mod commit_graph;
pub mod diff;
pub mod index;
pub mod config;
pub mod error;
pub mod hashing;
pub mod head;
pub mod metadata;
pub mod object;
pub mod repository;
pub mod store;
pub mod tree_map;
pub mod tree;

pub use blob::Blob;
pub use bookmark::BookMark;
pub use commit::Commit;
pub use diff::{DIffTag, Diff};
pub use head::Head;
pub use index::{Index, IndexVesion1};
pub use config::{Config, User};
pub use error::Error;
pub use repository::Repository;
pub use metadata::FileMeta;
pub use object::{Hashable, Object};
pub use tree::{Entry, Tree};
