//! A local, single-user content-addressable version-control core.
//!
//! The repository state (HEAD, the index ledger, the refs, and the object
//! store) is held as plain byte values in [`repo::Repo`]; every operation on
//! it is verified. Reading and writing the on-disk layout, and printing the
//! reports, is the surrounding application's business.
pub mod bytes;
pub mod commits;
pub mod hashing;
pub mod index;
pub mod objects;
pub mod ops;
pub mod refs;
pub mod repo;
