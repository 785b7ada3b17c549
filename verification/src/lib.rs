//! A content-addressed object store: blobs, trees and commits, each framed as
//! `"<kind> <size>\0<content>"`, named by the SHA-1 digest of that framing and
//! kept zlib-compressed under a path derived from the digest.
//!
//! Everything here works on plain values. Reading and writing files is left
//! to the caller: functions that write return the bytes and the path to put
//! them at, and functions that read take the bytes that were found.
//!
//! - `codec`: SHA-1, zlib and hex, and the sink that hashes and compresses.
//! - `object`, `object_laws`: kinds, objects, their framing, and what holds
//!   of it.
//! - `store`: names of objects and where they are kept.
//! - `tree`, `tree_order`, `tree_read`: the entries of a tree, their order,
//!   and reading them back.
//! - `work_tree`, `tree_laws`: the snapshot of a directory, and what holds
//!   of it.
//! - `commit`, `refs`: commit records and the pointer file.
//! - `commands`: what each command computes.

pub mod bytes;
pub mod codec;
pub mod commands;
pub mod commit;
pub mod error;
pub mod object;
pub mod object_laws;
pub mod refs;
pub mod store;
pub mod tree;
pub mod tree_laws;
pub mod tree_order;
pub mod tree_read;
pub mod work_tree;
