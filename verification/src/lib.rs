//! An in-memory hierarchical namespace: a tree of named folders and files,
//! navigated through POSIX-like path strings.
//!
//! The crate is organised in three layers:
//! - [`paths`]: lexical path handling — splitting on `/`, resolving `.` and
//!   `..`, joining and sorting segment sequences;
//! - [`node`]: the tree itself — folders mapping names to owned child nodes,
//!   and files;
//! - [`file_system`]: the session — a root folder plus a current working
//!   path, with `pwd`, `ls`, `mkdir` and `cd` built on top of the other two.

pub mod file_system;
pub mod node;
pub mod paths;
