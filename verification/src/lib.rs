//! Hash-gated synchronization of files and directory trees, modelled on
//! in-memory values.
//!
//! The library decides when content must be copied (the digests of source and
//! destination differ, or the destination is absent) and what the destination
//! holds afterwards.  The streaming content hasher, the file-level decision
//! and the recursive one-directional directory merge are all verified here;
//! a thin unverified shell performs the actual disk reads and writes and
//! feeds their results through these functions.

pub mod hashing;
pub mod filesync;
pub mod tree;
pub mod dirsync;
