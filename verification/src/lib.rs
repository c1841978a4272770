//! A local-first, per-user memory vault: an encrypted content store that
//! ingests free-text notes ("memories"), splits them into retrievable
//! chunks, tags and indexes them, and answers lexical queries with
//! citation-backed results.
//!
//! The crate is organised leaf-first: `crypto` wraps the password-hashing
//! and authenticated-encryption primitives, `text` and `chunk` hold the
//! tokenisation and chunking logic, `store` owns the relational tables and
//! their invariants, and `memory` and `vault` implement the ingestion,
//! retrieval and vault-lifecycle operations on top of them.

pub mod adapters;
pub mod chunk;
pub mod crypto;
pub mod errors;
pub mod memory;
pub mod store;
pub mod text;
pub mod types;
pub mod vault;
