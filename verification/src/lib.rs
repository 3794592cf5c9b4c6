//! A prototype distributed virtual filesystem.
//!
//! A cluster of peer daemons presents a single hierarchical namespace rooted
//! at a distinguished root daemon.  Each file's authoritative bytes live on
//! exactly one daemon; directory entries on any daemon can reference files
//! hosted on any other.  This crate holds the daemon's verified logic: the
//! wire codec, the directory and file stores, the LRU cache with its
//! eviction and persistence, the namespace resolver and placement, and the
//! request handlers.  Sockets, disks, clocks and threads live outside it.

pub mod messages;
pub mod codec;
pub mod store;
pub mod cache;
pub mod daemon;
pub mod cluster;
pub mod laws;
