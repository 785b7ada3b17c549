//! The commands of the store, each as a function from what was read to what
//! is to be written and printed.

pub mod cat_file;
pub mod commit;
pub mod commit_tree;
pub mod hash_object;
pub mod init;
pub mod ls_tree;
pub mod write_tree;
