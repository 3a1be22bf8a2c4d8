//! An object-storage engine modelled over a hierarchical namespace.
//!
//! Buckets are top-level containers; objects are byte payloads addressed by
//! `(bucket, key)` where a key is a byte string that may contain `/`.  The
//! engine keeps every table sorted in byte-wise lexicographic order, which is
//! what the listing and pagination contracts are stated against.  Every
//! operation is specified by its effect on the abstract view of the store
//! (`FileSystem::obj_view` and friends) and proved against that view.
//!
//! The pieces:
//! - [`names`]: namespace safety — validation of bucket names and keys, the
//!   leaf/directory conflict policy, deterministic path resolution;
//! - [`checksum`]: the content fingerprint used as the ETag-equivalent;
//! - [`types`]: objects, buckets, staged uploads, their views and invariants;
//! - [`store`]: the engine and the bucket lifecycle;
//! - [`objects`]: object CRUD with atomic, all-or-nothing commits;
//! - [`listing`]: prefix/delimiter listing and exact pagination;
//! - [`multipart`]: staged uploads assembled into committed objects;
//! - [`laws`]: properties tying the operations together — round trip,
//!   write independence, listing order, grouping and pagination.
//!
//! Mutating operations take `&mut self`; that exclusive borrow is the
//! engine's concurrency discipline: each commit is one atomic step on the
//! abstract state, so readers never observe a partial write and writes to
//! different keys are independent (see [`laws`]).

pub mod bytes;
pub mod checksum;
pub mod errors;
pub mod names;
pub mod types;
pub mod store;
pub mod objects;
pub mod multipart;
pub mod listing;
pub mod laws;
