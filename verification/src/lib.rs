//! A content-addressable object store in the style of git: blobs, trees and
//! commits, framed, hashed, compressed and kept under their digest.
//!
//! The store is a value in memory. The library decides what is stored under
//! which digest and what is printed; reading and writing the files is left
//! to its caller.

pub mod bytes;
pub mod commit;
pub mod decimal;
pub mod digest;
pub mod error;
pub mod hex;
pub mod object;
pub mod show;
pub mod store;
pub mod tree;
pub mod worktree;
pub mod zlib;

pub use commit::{commit_tree, Timestamp};
pub use error::Error;
pub use hex::ToHex;
pub use object::{decode, encode, ObjKind, Object};
pub use show::{cat_file, hash_object, ls_tree, print_blob_obj, print_tree_obj};
pub use store::{
    object_path, read_obj_file, write_blob_object, write_object, ObjectStore, StoredObject,
};
pub use tree::{get_mode, write_tree_obj, Mode, TreeObject};
pub use worktree::{write_tree, write_tree_for_path, DirEntry, Node};
