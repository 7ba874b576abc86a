//! A small directory synchronisation library.
//!
//! A sender enumerates the files under a source root into a manifest, a
//! receiver compares that manifest against its own tree and answers with the
//! subset that needs transfer, and the sender then pushes each changed file's
//! content in full.  This crate holds the verified core of that exchange: the
//! manifest and payload data model, the diff rule deciding which files are
//! changed, the path reconciliation that computes the receiver-side write
//! location, the wire codec for the two message shapes, and the per-message
//! session steps of both roles.  The surrounding process (sockets, the
//! filesystem walk, argument handling) lives outside the library and hands it
//! plain values.

pub mod codec;
pub mod diff;
pub mod manifest;
pub mod path;
pub mod session;
