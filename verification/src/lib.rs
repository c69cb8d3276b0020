//! Resolves a requested toolchain version against a remote package catalog,
//! computes the transitive set of packages it depends on, and plans the
//! download and digest verification of the associated artifact files.
//!
//! The catalog index, the dependency resolver and the download planner are
//! verified; fetching bytes over the network and touching the file system are
//! left to the surrounding application, which hands the results back in as
//! plain values.

pub mod catalog;
pub mod channel;
pub mod digest;
pub mod download;
pub mod errors;
pub mod index;
pub mod resolve;
pub mod sort;
pub mod strings;
pub mod toolchain;
