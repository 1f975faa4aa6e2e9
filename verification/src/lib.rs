//! Core of a content-addressed, deduplicating snapshot repository.
//!
//! The library decides and computes; reading, writing and the clock are
//! left to its caller. Contracts are stated over mathematical views of the
//! data and proved against the executable code. What is taken on trust is
//! marked where it stands: the SHA-256 digest, the text of a time and the
//! text of a size below 1024 bytes, which outside crates compute, and one
//! function of `String`.

pub mod archiver;
pub mod backend;
pub mod backup;
pub mod blob;
pub mod chunker;
pub mod copy;
pub mod hasher;
pub mod helpers;
pub mod id;
pub mod idmap;
pub mod index;
pub mod indexer;
pub mod packer;
pub mod packfile;
pub mod repair;
pub mod repair_index;
pub mod repair_twice;
pub mod rolling_hash;
pub mod second_run;
pub mod snapshot;
pub mod text;
pub mod time;
pub mod tree;
pub mod wire;
pub mod writer;
