//! A small student-record service: an in-memory ordered sequence of records
//! with create/read/update/delete operations, persisted as a single JSON
//! document.  The JSON encoding and decoding, the service operations and
//! their invariants (unique identifiers, identifier immutability, lenient
//! loading, round-tripping of the store format) are all verified.

pub mod math_utils;
pub mod model;
pub mod service;
pub mod store;
pub mod store_proofs;
pub mod strutil;
