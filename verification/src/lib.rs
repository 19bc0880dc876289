//! A small git object store: the byte formats of blobs, trees and commits,
//! pkt-lines, pack files and deltas, with their contracts proved by Verus.

pub mod encoding;
pub mod external;
pub mod object;
pub mod tree;
pub mod tree_write;
pub mod delta;
pub mod pkt;
pub mod pack;
pub mod clone;
