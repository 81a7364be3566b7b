//! A minimal persistent multimap: string values stored under 32-bit keys
//! derived from a rotating hash of a string label, with a text codec that
//! serialises the table to a single blob for storage.
//!
//! The verified core is the hasher, the in-memory table, and the codec.
//! File handling and the command-line driver live outside the library and
//! only hand blobs in and out as plain strings.

pub mod hash;
pub mod table;
pub mod codec;
pub mod store;
