//! A content-addressed version-control storage engine: object model, object
//! envelopes, the binary staging area, and the tree merge / checkout rules.

pub mod blob;
pub mod bytes;
pub mod checkout;
pub mod command;
pub mod commit;
pub mod error;
pub mod fs;
pub mod hashing;
pub mod index;
pub mod merge;
pub mod objtype;
pub mod store;
pub mod tree;
pub mod zlib;
