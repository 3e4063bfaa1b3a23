//! A small Git object-storage engine: object framing, content addressing,
//! tree and commit serialization, and reference handling. The functions here
//! compute what goes to and comes from the disk; reading and writing files
//! is left to the caller.

pub mod commands;
pub mod commit;
pub mod config;
pub mod encoding;
pub mod object;
pub mod outside;
pub mod paths;
pub mod refs;
pub mod tree;
pub mod walk;
pub mod snapshot;
