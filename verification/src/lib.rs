//! A small version control system: objects named by the SHA-1 of their text
//! and stored zlib-compressed, an index of staged files, and commits whose
//! trees describe the staged files.

pub mod args;
pub mod chronicle;
pub mod commits;
pub mod compression;
pub mod error;
pub mod hashing;
pub mod ignore;
pub mod index;
pub mod objects;
pub mod path;
pub mod paths;
pub mod prefix;
pub mod text;
pub mod tree_node;
