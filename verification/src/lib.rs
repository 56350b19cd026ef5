//! A local store of immutable artifacts: what is downloaded, how it is installed,
//! who wants it, and when it is collected.
//!
//! Whatever touches the file system, the network or a database is done by the
//! program around this library. It hands in what it found, as plain values, and
//! gets back what to do.

pub mod archive;
pub mod artifact;
pub mod collect;
pub mod digest;
pub mod error;
pub mod install;
pub mod intent;
pub mod json;
pub mod path;
pub mod plan;
pub mod progress;
pub mod server;
pub mod store;
pub mod submit;
pub mod tarball;
pub mod text;
